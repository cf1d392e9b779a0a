use super::address::{Address, AddressRange, VariableLengthAddressRange};
use vstd::prelude::*;

verus! {

/// `std::io::Error`: the failure that a reader reports. It is carried through
/// as it is, and nothing is claimed of what it holds.
#[verifier::external_type_specification]
#[verifier::external_body]
pub struct ExIoError(std::io::Error);

/// One request that a reader has answered: what was asked for, and what came
/// back.
pub ghost struct ReadEvent {
    /// Where the requested bytes begin.
    pub start: Address,
    /// How many bytes were requested.
    pub num_bytes: usize,
    /// The bytes that were handed out, or the failure that was reported.
    pub outcome: Result<Seq<u8>, std::io::Error>,
}

impl ReadEvent {
    /// The record of a request for `num_bytes` bytes at `start` that was
    /// answered with `answer`.
    pub open spec fn answered(start: Address, num_bytes: usize, answer: Result<Seq<u8>, std::io::Error>) -> ReadEvent {
        ReadEvent { start, num_bytes, outcome: answer }
    }

    /// Whether this is a request for exactly `num_bytes` bytes at `start`.
    pub open spec fn asks(self, start: Address, num_bytes: usize) -> bool {
        self.start == start && self.num_bytes == num_bytes
    }
}

/// The requests that a reader has answered, oldest first.
pub type History = Seq<ReadEvent>;

/// The mathematical content of a reader's answer.
pub open spec fn vec_answer(r: Result<Vec<u8>, std::io::Error>) -> Result<Seq<u8>, std::io::Error> {
    match r {
        Ok(bytes) => Ok(bytes@),
        Err(e) => Err(e),
    }
}

/// The mathematical content of a reader's fixed-length answer.
pub open spec fn array_answer<const N: usize>(r: Result<[u8; N], std::io::Error>) -> Result<Seq<u8>, std::io::Error> {
    match r {
        Ok(bytes) => Ok(bytes@),
        Err(e) => Err(e),
    }
}

/// The requests that were answered while a history grew from `before` to
/// `after`.
pub open spec fn events_since(before: Seq<ReadEvent>, after: Seq<ReadEvent>) -> Seq<ReadEvent> {
    after.skip(before.len() as int)
}

/// Whether `events` is a single request for `num_bytes` bytes at `start`.
pub open spec fn reads_once(events: Seq<ReadEvent>, start: Address, num_bytes: usize) -> bool {
    events.len() == 1 && events[0].asks(start, num_bytes)
}

/// Trait for types that can read byte sequences from memory.
///
/// What a read returns is up to the memory behind the reader, and may differ
/// from one call to the next. The contract therefore says nothing of the bytes
/// but their number; it records each request and its answer in
/// [`MemoryReader::history`], so that callers can state which requests they
/// made and what they computed from the answers.
///
/// `history` is there for contracts only and is never run: a reader that is
/// not itself verified may give it any body.
pub trait MemoryReader {
    /// Every request this reader has answered so far, oldest first.
    spec fn history(&self) -> Seq<ReadEvent>;

    /// Copies the bytes present in `range` into a vector and returns them, or
    /// reports that they could not be read. A successful read hands out
    /// exactly `range.num_bytes` bytes.
    fn read_vec(&mut self, range: VariableLengthAddressRange) -> (r: Result<Vec<u8>, std::io::Error>)
        ensures
            final(self).history() == old(self).history().push(
                ReadEvent::answered(range.start, range.num_bytes, vec_answer(r)),
            ),
            r matches Ok(bytes) ==> bytes@.len() == range.num_bytes,
    ;

    /// Copies the bytes present in `range` into a fixed-size array and returns
    /// them, or reports that they could not be read.
    ///
    /// The provided implementation goes through
    /// [`MemoryReader::read_vec`]; a reader may replace it with a faster one.
    fn read<const NUM_BYTES: usize>(&mut self, range: AddressRange<NUM_BYTES>) -> (r: Result<[u8; NUM_BYTES], std::io::Error>)
        ensures
            final(self).history() == old(self).history().push(
                ReadEvent::answered(range.start, NUM_BYTES, array_answer(r)),
            ),
    {
        match self.read_vec(VariableLengthAddressRange { start: range.start, num_bytes: NUM_BYTES }) {
            Ok(bytes) => Ok(vec_into_array(bytes)),
            Err(e) => Err(e),
        }
    }
}

/// `std::io::Error::new` with the kind `Other`: an error of the library's own
/// making, with `message` for its text.
#[verifier::external_body]
pub(crate) fn other_error(message: &str) -> std::io::Error {
    std::io::Error::new(std::io::ErrorKind::Other, message)
}

/// `Vec::try_into` for arrays: a vector of exactly `N` items becomes the array
/// with the same items in the same order.
#[verifier::external_body]
pub(crate) fn vec_into_array<T, const N: usize>(items: Vec<T>) -> (array: [T; N])
    requires
        items@.len() == N,
    ensures
        array@ == items@,
{
    let converted: Result<[T; N], Vec<T>> = items.try_into();
    converted.ok().unwrap()
}

/// When one request was added to a history, the events since are that request.
pub proof fn lemma_one_event(before: Seq<ReadEvent>, after: Seq<ReadEvent>, event: ReadEvent)
    requires
        after == before.push(event),
    ensures
        before.is_prefix_of(after),
        events_since(before, after) == seq![event],
{
    assert(events_since(before, after) =~= seq![event]);
}

/// Events gathered over two stretches are the events of the first stretch
/// followed by those of the second.
pub proof fn lemma_events_chain(first: Seq<ReadEvent>, middle: Seq<ReadEvent>, last: Seq<ReadEvent>)
    requires
        first.is_prefix_of(middle),
        middle.is_prefix_of(last),
    ensures
        first.is_prefix_of(last),
        events_since(first, last) == events_since(first, middle) + events_since(middle, last),
        events_since(first, last).take(events_since(first, middle).len() as int) == events_since(first, middle),
        events_since(first, last).skip(events_since(first, middle).len() as int) == events_since(middle, last),
{
    assert(events_since(first, last) =~= events_since(first, middle) + events_since(middle, last));
    assert(events_since(first, last).take(events_since(first, middle).len() as int) =~= events_since(first, middle));
    assert(events_since(first, last).skip(events_since(first, middle).len() as int) =~= events_since(middle, last));
}

/// Nothing happened between a history and itself.
pub proof fn lemma_no_events(history: Seq<ReadEvent>)
    ensures
        history.is_prefix_of(history),
        events_since(history, history) == Seq::<ReadEvent>::empty(),
{
    assert(events_since(history, history) =~= Seq::<ReadEvent>::empty());
}

} // verus!
