use super::address::Address;
use vstd::prelude::*;

verus! {

/// One question that a locator has answered: the library that was asked for,
/// and what came back.
pub ghost struct LocateEvent {
    /// The name of the library that was asked for.
    pub library: Seq<char>,
    /// The address that was found, or the failure that was reported.
    pub outcome: Result<Address, std::io::Error>,
}

/// The questions that a locator has answered, oldest first.
pub type Located = Seq<LocateEvent>;

/// Trait for types that can locate a library's starting address in memory.
///
/// Where a library lies is up to the process that the locator looks into.
/// The contract therefore says nothing of the answer; it records each
/// question and its answer in [`MemoryLocator::located`], so that callers can
/// state what they asked for and what they made of the answer.
///
/// `located` is there for contracts only and is never run: a locator that is
/// not itself verified may give it any body.
pub trait MemoryLocator {
    /// Every question this locator has answered so far, oldest first.
    spec fn located(&self) -> Seq<LocateEvent>;

    /// Finds the address at which `library` begins in virtual memory, or
    /// reports that the library could not be found.
    fn locate(&mut self, library: &str) -> (r: Result<Address, std::io::Error>)
        ensures
            final(self).located() == old(self).located().push(LocateEvent { library: library@, outcome: r }),
    ;
}

} // verus!
