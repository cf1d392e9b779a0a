use crate::memory::address::Address;
use crate::memory::locator::{LocateEvent, MemoryLocator};
use crate::memory::reader::other_error;
use vstd::prelude::*;

verus! {

/// One region that is mapped into a process: where it starts, and the file
/// that it was mapped from, if any.
pub struct MappedRegion {
    pub filename: Option<String>,
    pub start: usize,
}

/// A library in a process's memory.
pub struct Library {
    pub filename: String,
    pub starting_address: Address,
}

/// `std::path::Path::ends_with`: whether the last components of `path` are
/// those of `suffix`. What a component is depends on the platform.
#[verifier::external_body]
fn path_ends_with(path: &str, suffix: &str) -> bool {
    std::path::Path::new(path).ends_with(suffix)
}

/// The regions that were mapped from a file, in the order of `regions`.
pub open spec fn libraries_of(regions: Seq<MappedRegion>) -> Seq<Library>
    decreases regions.len(),
{
    if regions.len() == 0 {
        Seq::empty()
    } else {
        let rest = libraries_of(regions.drop_last());
        match regions.last().filename {
            Some(filename) => rest.push(Library { filename, starting_address: Address(regions.last().start) }),
            None => rest,
        }
    }
}

/// Represents the locations of libraries in an external process's memory at
/// a point in time.
pub struct ExternalMemoryLocator {
    libraries: Vec<Library>,
    log: Ghost<Seq<LocateEvent>>,
}

impl ExternalMemoryLocator {
    /// The libraries that are known, in the order in which they were mapped.
    pub closed spec fn libraries(&self) -> Seq<Library> {
        self.libraries@
    }

    /// The locations of the libraries among `regions`: the regions that were
    /// mapped from a file. The locations are those of the moment at which
    /// the regions were listed, and are not brought up to date.
    pub fn from_regions(regions: Vec<MappedRegion>) -> (r: Self)
        ensures
            r.libraries() == libraries_of(regions@),
            r.located() == Seq::<LocateEvent>::empty(),
    {
        let mut libraries: Vec<Library> = Vec::new();
        let mut i: usize = 0;
        assert(regions@.take(0) =~= Seq::<MappedRegion>::empty());
        while i < regions.len()
            invariant
                0 <= i <= regions.len(),
                libraries@ == libraries_of(regions@.take(i as int)),
            decreases regions.len() - i,
        {
            proof {
                assert(regions@.take(i + 1).drop_last() =~= regions@.take(i as int));
                assert(regions@.take(i + 1).last() == regions@[i as int]);
            }
            match &regions[i].filename {
                Some(filename) => {
                    libraries.push(
                        Library { filename: filename.clone(), starting_address: Address::new(regions[i].start) },
                    );
                },
                None => {},
            }
            i += 1;
        }
        assert(regions@.take(i as int) =~= regions@);
        Self { libraries, log: Ghost(Seq::empty()) }
    }
}

/// The index of the first of `marks` that is set, if any is.
pub open spec fn first_marked(marks: Seq<bool>) -> Option<int>
    decreases marks.len(),
{
    if marks.len() == 0 {
        None
    } else if marks[0] {
        Some(0)
    } else {
        match first_marked(marks.drop_first()) {
            Some(index) => Some(index + 1),
            None => None,
        }
    }
}

/// The first marked index is in range and marked, and no index before it is.
pub proof fn lemma_first_marked(marks: Seq<bool>)
    ensures
        first_marked(marks) matches Some(index) ==> 0 <= index < marks.len() && marks[index] && forall|i: int|
            0 <= i < index ==> !marks[i],
        first_marked(marks) is None ==> forall|i: int| 0 <= i < marks.len() ==> !marks[i],
    decreases marks.len(),
{
    if marks.len() > 0 && !marks[0] {
        let rest = marks.drop_first();
        lemma_first_marked(rest);
        match first_marked(rest) {
            Some(index) => {
                assert forall|i: int| 0 <= i < index + 1 implies !marks[i] by {
                    if i > 0 {
                        assert(rest[i - 1] == marks[i]);
                    }
                }
            },
            None => {
                assert forall|i: int| 0 <= i < marks.len() implies !marks[i] by {
                    if i > 0 {
                        assert(rest[i - 1] == marks[i]);
                    }
                }
            },
        }
    }
}

/// The starting address of the first of `libraries` whose mark is set: the
/// library that a search by name settles on, given for each library whether
/// its file name ends with the name that is looked for.
pub fn first_match(libraries: &Vec<Library>, marks: &Vec<bool>) -> (r: Option<Address>)
    requires
        libraries@.len() == marks@.len(),
    ensures
        match first_marked(marks@) {
            Some(index) => r == Some(libraries@[index].starting_address),
            None => r is None,
        },
{
    let mut i: usize = 0;
    proof {
        lemma_first_marked(marks@);
    }
    while i < marks.len()
        invariant
            0 <= i <= marks.len(),
            libraries@.len() == marks@.len(),
            forall|j: int| 0 <= j < i ==> !marks@[j],
        decreases marks.len() - i,
    {
        if marks[i] {
            proof {
                lemma_first_marked(marks@);
            }
            return Some(libraries[i].starting_address);
        }
        i += 1;
    }
    None
}

impl MemoryLocator for ExternalMemoryLocator {
    closed spec fn located(&self) -> Seq<LocateEvent> {
        self.log@
    }

    /// Finds the location of the first library whose file name ends with
    /// `library`: each library is marked by whether its file name does, and
    /// the first marked library is the answer. Without a marked library, and
    /// so without libraries, there is nothing to find.
    fn locate(&mut self, library: &str) -> (r: Result<Address, std::io::Error>)
        ensures
            final(self).libraries() == old(self).libraries(),
            exists|marks: Seq<bool>|
                marks.len() == old(self).libraries().len() && match #[trigger] first_marked(marks) {
                    Some(index) => r == Ok::<Address, std::io::Error>(
                        old(self).libraries()[index].starting_address,
                    ),
                    None => r is Err,
                },
            old(self).libraries().len() == 0 ==> r is Err,
    {
        let mut marks: Vec<bool> = Vec::new();
        let mut i: usize = 0;
        while i < self.libraries.len()
            invariant
                0 <= i <= self.libraries.len(),
                marks@.len() == i,
                self.libraries@ == old(self).libraries@,
                self.log@ == old(self).log@,
            decreases self.libraries.len() - i,
        {
            marks.push(path_ends_with(self.libraries[i].filename.as_str(), library));
            i += 1;
        }
        proof {
            lemma_first_marked(marks@);
        }
        let r = match first_match(&self.libraries, &marks) {
            Some(address) => Ok(address),
            None => Err(other_error("library not found")),
        };
        assert(match first_marked(marks@) {
            Some(index) => r == Ok::<Address, std::io::Error>(old(self).libraries()[index].starting_address),
            None => r is Err,
        });
        self.log = Ghost(self.log@.push(LocateEvent { library: library@, outcome: r }));
        r
    }
}

} // verus!
