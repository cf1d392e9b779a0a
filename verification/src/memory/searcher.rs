use super::address::{Address, VariableLengthAddressRange};
use super::reader::{events_since, lemma_events_chain, lemma_no_events, MemoryReader, ReadEvent};
use vstd::prelude::*;
use vstd::slice::slice_index_get;

verus! {

/// The stride of a search unless another is asked for: the page size of the
/// platform that the searched processes run on.
pub const DEFAULT_PAGE_SIZE: usize = 4096;

/// Whether two runs of bytes are the same.
pub fn bytes_equal(left: &Vec<u8>, right: &[u8]) -> (r: bool)
    ensures
        r <==> left@ == right@,
{
    if left.len() != right.len() {
        return false;
    }
    let mut i: usize = 0;
    while i < left.len()
        invariant
            0 <= i <= left.len(),
            left.len() == right.len(),
            forall|j: int| 0 <= j < i ==> left@[j] == right@[j],
        decreases left.len() - i,
    {
        if left[i] != *slice_index_get(right, i) {
            return false;
        }
        i += 1;
    }
    assert(left@ =~= right@);
    true
}

/// Whether a request was answered with exactly `signature`.
pub open spec fn matches_signature(event: ReadEvent, signature: Seq<u8>) -> bool {
    event.outcome == Ok::<Seq<u8>, std::io::Error>(signature)
}

/// What a search does that begins at `start`, covers `num_bytes` bytes and
/// moves `stride` bytes at a time: request `k` asks for as many bytes as the
/// signature has, at `start + k * stride`, and no request before the last was
/// answered with the signature.
pub open spec fn probes(
    events: Seq<ReadEvent>,
    start: Address,
    stride: usize,
    signature: Seq<u8>,
) -> bool {
    &&& forall|k: int|
        0 <= k < events.len() ==> {
            &&& (#[trigger] events[k]).start@ == start@ + k * stride
            &&& events[k].num_bytes == signature.len()
        }
    &&& forall|k: int| 0 <= k < events.len() - 1 ==> !matches_signature(#[trigger] events[k], signature)
}

/// What a search over `range` does, in steps of `stride`, for `signature`:
/// the places are looked at in rising order; the first place whose bytes are
/// the signature is the result, and ends the search. Without such a place the
/// search ends with the first place that lies beyond the range or the address
/// space.
pub open spec fn searches(
    range: VariableLengthAddressRange,
    stride: usize,
    signature: Seq<u8>,
    events: Seq<ReadEvent>,
    found: Option<Address>,
) -> bool {
    let next = events.len() * stride;
    &&& probes(events, range.start, stride, signature)
    &&& match found {
        Some(address) => {
            &&& events.len() > 0
            &&& address@ == range.start@ + (events.len() - 1) * stride
            &&& address@ < range.end()
            &&& matches_signature(events.last(), signature)
        },
        None => {
            &&& events.len() > 0 ==> !matches_signature(events.last(), signature)
            &&& next >= range.num_bytes || range.start@ + next > usize::MAX
            &&& events.len() > 0 ==> (events.len() - 1) * stride < range.num_bytes
        },
    }
}

/// Looks for a fixed run of bytes at the start of a page.
pub struct MemorySearcher<'a> {
    signature: &'a [u8],
    page_size: usize,
}

impl<'a> MemorySearcher<'a> {
    #[verifier::type_invariant]
    spec fn well_formed(self) -> bool {
        self.page_size > 0
    }

    /// The bytes that are looked for.
    pub closed spec fn signature(&self) -> Seq<u8> {
        self.signature@
    }

    /// The distance from one place that is looked at to the next.
    pub closed spec fn stride(&self) -> usize {
        self.page_size
    }

    /// A searcher for `signature` that looks at the start of each page of
    /// [`DEFAULT_PAGE_SIZE`] bytes.
    #[must_use]
    pub fn new(signature: &'a [u8]) -> (r: Self)
        ensures
            r.signature() == signature@,
            r.stride() == DEFAULT_PAGE_SIZE,
    {
        Self { signature, page_size: DEFAULT_PAGE_SIZE }
    }

    /// A searcher for `signature` that looks at every `page_size` bytes;
    /// `None` for a page size of zero, with which a search would not move.
    #[must_use]
    pub fn with_page_size(signature: &'a [u8], page_size: usize) -> (r: Option<Self>)
        ensures
            r is Some <==> page_size > 0,
            r matches Some(searcher) ==> searcher.signature() == signature@ && searcher.stride() == page_size,
    {
        if page_size == 0 {
            None
        } else {
            Some(Self { signature, page_size })
        }
    }

    /// Looks for the signature in `range`, at `range.start` and then every
    /// stride, as long as the place lies within the range and the address
    /// space. Returns the first place where the bytes that were read are the
    /// signature. A place that cannot be read is no match, and the search
    /// goes on. The result is never an error.
    pub fn search<M: MemoryReader>(&self, reader: &mut M, range: VariableLengthAddressRange) -> (r: Result<
        Option<Address>,
        std::io::Error,
    >)
        ensures
            r is Ok,
            self.stride() > 0,
            old(reader).history().is_prefix_of(final(reader).history()),
            r matches Ok(found) && searches(
                range,
                self.stride(),
                self.signature(),
                events_since(old(reader).history(), final(reader).history()),
                found,
            ),
    {
        proof {
            use_type_invariant(self);
            lemma_no_events(reader.history());
        }
        let ghost start = reader.history();
        let mut offset: usize = 0;
        let ghost mut count: int = 0;
        while offset < range.num_bytes
            invariant
                self.page_size > 0,
                start == old(reader).history(),
                start.is_prefix_of(reader.history()),
                count == events_since(start, reader.history()).len(),
                offset == count * self.page_size,
                count > 0 ==> (count - 1) * self.page_size < range.num_bytes,
                probes(events_since(start, reader.history()), range.start, self.page_size, self.signature@),
                count > 0 ==> !matches_signature(events_since(start, reader.history()).last(), self.signature@),
            decreases
                    if offset < range.num_bytes {
                        range.num_bytes - offset
                    } else {
                        0
                    },
        {
            let addr = match range.start.checked_add(offset) {
                Some(addr) => addr,
                None => {
                    return Ok(None);
                },
            };
            let ghost before = reader.history();
            let maybe_data = reader.read_vec(
                VariableLengthAddressRange { start: addr, num_bytes: self.signature.len() },
            );
            proof {
                lemma_events_chain(start, before, reader.history());
                let events = events_since(start, reader.history());
                let earlier = events_since(start, before);
                assert(events =~= earlier.push(reader.history().last()));
                assert forall|k: int| 0 <= k < events.len() implies {
                    &&& (#[trigger] events[k]).start@ == range.start@ + k * self.page_size
                    &&& events[k].num_bytes == self.signature@.len()
                } by {
                    if k < earlier.len() {
                        assert(events[k] == earlier[k]);
                    }
                }
                assert forall|k: int| 0 <= k < events.len() - 1 implies !matches_signature(
                    #[trigger] events[k],
                    self.signature@,
                ) by {
                    assert(events[k] == earlier[k]);
                }
                assert((count + 1) * self.page_size == count * self.page_size + self.page_size)
                    by (nonlinear_arith);
            }
            let found = match maybe_data {
                Ok(data) => bytes_equal(&data, self.signature),
                Err(_) => false,
            };
            if found {
                return Ok(Some(addr));
            }
            proof {
                count = count + 1;
            }
            match offset.checked_add(self.page_size) {
                Some(next) => {
                    offset = next;
                },
                None => {
                    return Ok(None);
                },
            }
        }
        Ok(None)
    }
}

} // verus!
