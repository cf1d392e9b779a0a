use crate::deserialize::layout::FieldLayout;
use crate::memory::address::{Address, AddressRange};
use crate::memory::reader::{events_since, lemma_events_chain, lemma_one_event, MemoryReader, ReadEvent};
use super::deserializetrait::{lemma_small_powers_of_two, Deserialize};
use super::error::Error;
use super::ptr::{fails_to_read_pointer, reads_pointer};
use vstd::prelude::*;
use vstd::utf8::{decode_utf8, valid_utf8};

verus! {

/// The largest number of bytes that a string may have before its terminator.
pub const MAX_STRING_LENGTH: usize = 1024 * 1024;

/// `String::from_utf8`: the text that `bytes` encode, or the reason why they
/// are no UTF-8. It succeeds exactly on valid UTF-8.
#[verifier::external_body]
fn string_from_utf8(bytes: Vec<u8>) -> (r: Result<String, std::str::Utf8Error>)
    ensures
        r is Ok <==> valid_utf8(bytes@),
        r matches Ok(text) ==> text@ == decode_utf8(bytes@),
{
    match String::from_utf8(bytes) {
        Ok(text) => Ok(text),
        Err(error) => Err(error.utf8_error()),
    }
}

/// What the bytes before the terminator make of a string: text when they are
/// valid UTF-8, and an encoding error otherwise.
pub open spec fn text_of(bytes: Seq<u8>, outcome: Result<String, Error>) -> bool {
    if valid_utf8(bytes) {
        outcome matches Ok(text) && text@ == decode_utf8(bytes)
    } else {
        outcome matches Err(Error::EncodingError(_))
    }
}

/// Turns the bytes before the terminator into text.
pub fn text_from_bytes(bytes: Vec<u8>) -> (r: Result<String, Error>)
    ensures
        text_of(bytes@, r),
{
    match string_from_utf8(bytes) {
        Ok(text) => Ok(text),
        Err(error) => Err(Error::EncodingError(error)),
    }
}

/// Request `index` of a scan is for the single byte at `address + index`, and
/// was answered with a byte that is not the terminator.
pub open spec fn scans_on(address: Address, events: Seq<ReadEvent>, index: int) -> bool {
    &&& events[index].start@ == address@ + index
    &&& events[index].num_bytes == 1
    &&& events[index].outcome matches Ok(bytes) && bytes.len() == 1 && bytes[0] != 0
}

/// The bytes that the first `count` requests of a scan were answered with.
pub open spec fn scanned_bytes(events: Seq<ReadEvent>, count: int) -> Seq<u8> {
    Seq::new(count as nat, |i: int| events[i].outcome->Ok_0[0])
}

/// What reading a string at `address` does: single bytes are requested from
/// `address` on, one after the other, until
/// - a request fails, and its failure is the outcome; or
/// - the byte is zero, and the bytes before it are the string; or
/// - the next address would not fit the address space; or
/// - `MAX_STRING_LENGTH + 1` bytes were read without a zero among them.
pub open spec fn scans_string(address: Address, events: Seq<ReadEvent>, outcome: Result<String, Error>) -> bool {
    let last = events.len() - 1;
    &&& 1 <= events.len() <= MAX_STRING_LENGTH + 1
    &&& forall|i: int| 0 <= i < last ==> #[trigger] scans_on(address, events, i)
    &&& events[last].start@ == address@ + last
    &&& events[last].num_bytes == 1
    &&& match events[last].outcome {
        Err(e) => outcome == Err::<String, Error>(Error::IoError(e)),
        Ok(bytes) => bytes.len() == 1 && if bytes[0] == 0 {
            text_of(scanned_bytes(events, last), outcome)
        } else if address@ + last + 1 > usize::MAX {
            outcome == Err::<String, Error>(Error::AddressOverflowError(address))
        } else {
            last == MAX_STRING_LENGTH && outcome == Err::<String, Error>(
                Error::UnterminatedCStringError(address),
            )
        },
    }
}

/// Reads the zero-terminated string that begins at `address`.
pub fn read_c_string<M: MemoryReader>(reader: &mut M, address: Address) -> (r: Result<String, Error>)
    ensures
        old(reader).history().is_prefix_of(final(reader).history()),
        scans_string(address, events_since(old(reader).history(), final(reader).history()), r),
{
    let ghost start = reader.history();
    let mut next_addr = address;
    let mut bytes: Vec<u8> = Vec::new();
    let mut count: usize = 0;
    proof {
        crate::memory::reader::lemma_no_events(start);
    }
    while count <= MAX_STRING_LENGTH
        invariant
            0 <= count <= MAX_STRING_LENGTH + 1,
            start == old(reader).history(),
            start.is_prefix_of(reader.history()),
            events_since(start, reader.history()).len() == count,
            bytes@.len() == count,
            next_addr@ == address@ + count || count == MAX_STRING_LENGTH + 1,
            forall|i: int| 0 <= i < count ==> #[trigger] scans_on(address, events_since(start, reader.history()), i),
            bytes@ == scanned_bytes(events_since(start, reader.history()), count as int),
            count == MAX_STRING_LENGTH + 1 ==> address@ + count <= usize::MAX,
        decreases MAX_STRING_LENGTH + 1 - count,
    {
        let ghost before = reader.history();
        let answer = reader.read(AddressRange::<1> { start: next_addr });
        proof {
            lemma_one_event(before, reader.history(), reader.history().last());
            lemma_events_chain(start, before, reader.history());
            let events = events_since(start, reader.history());
            let earlier = events_since(start, before);
            assert(events == earlier + events_since(before, reader.history()));
            assert forall|i: int| 0 <= i < count implies #[trigger] scans_on(address, events, i) by {
                assert(scans_on(address, earlier, i));
                assert(events[i] == earlier[i]);
            }
            assert(scanned_bytes(events, count as int) =~= scanned_bytes(earlier, count as int));
            assert(events[count as int] == reader.history().last());
        }
        let byte = match answer {
            Ok(read) => read[0],
            Err(e) => {
                return Err(Error::IoError(e));
            },
        };
        if byte == 0 {
            return text_from_bytes(bytes);
        }
        bytes.push(byte);
        proof {
            let events = events_since(start, reader.history());
            assert(bytes@ =~= scanned_bytes(events, count + 1));
        }
        match next_addr.checked_add(1) {
            None => {
                return Err(Error::AddressOverflowError(address));
            },
            Some(addr) => {
                next_addr = addr;
            },
        }
        count += 1;
    }
    proof {
        // the last request was answered with a byte that is not the terminator
        let events = events_since(start, reader.history());
        assert(scans_on(address, events, MAX_STRING_LENGTH as int));
    }
    Err(Error::UnterminatedCStringError(address))
}

/// What decoding a string at `address` does: a pointer is read there, and
/// unless it is zero, the string that it points to.
pub open spec fn decodes_string_pointer(
    address: Address,
    events: Seq<ReadEvent>,
    outcome: Result<Option<String>, Error>,
) -> bool {
    ||| fails_to_read_pointer(address, events.take(1), outcome) && events.len() == 1
    ||| exists|raw: int| #[trigger]
        reads_pointer(address, events.take(1), raw) && if raw == 0 {
            events.len() == 1 && outcome == Ok::<Option<String>, Error>(None)
        } else {
            &&& raw <= usize::MAX
            &&& !(outcome matches Ok(None))
            &&& scans_string(Address(raw as usize), events.skip(1), crate::deserialize::lazy::some_outcome(outcome))
        }
}

impl Deserialize for Option<String> {
    const NUM_BYTES: usize = 8;

    const ALIGNMENT: usize = 8;

    open spec fn layout() -> FieldLayout {
        FieldLayout { num_bytes: 8, alignment: 8 }
    }

    proof fn lemma_layout() {
        lemma_small_powers_of_two();
    }

    /// A pointer is read at `address`; zero decodes to no string, and any
    /// other value is followed at once to a zero-terminated string.
    open spec fn decodes(address: Address, events: Seq<ReadEvent>, outcome: Result<Self, Error>) -> bool {
        decodes_string_pointer(address, events, outcome)
    }

    fn deserialize<M: MemoryReader>(reader: &mut M, address: Address) -> (r: Result<Self, Error>) {
        let ghost start = reader.history();
        let pointer = Option::<Address>::deserialize(reader, address);
        let ghost middle = reader.history();
        proof {
            let events = events_since(start, middle);
            assert(events.take(1) =~= events);
        }
        match pointer {
            Err(e) => Err(e),
            Ok(None) => Ok(None),
            Ok(Some(pointed_addr)) => {
                let text = read_c_string(reader, pointed_addr);
                proof {
                    lemma_events_chain(start, middle, reader.history());
                    let events = events_since(start, reader.history());
                    assert(events.take(1) =~= events_since(start, middle));
                    assert(events.skip(1) =~= events_since(middle, reader.history()));
                    let raw = choose|raw: int| #[trigger]
                        reads_pointer(address, events_since(start, middle), raw) && pointed_addr@ == raw && raw != 0;
                    assert(reads_pointer(address, events.take(1), raw));
                }
                match text {
                    Ok(string) => Ok(Some(string)),
                    Err(e) => Err(e),
                }
            },
        }
    }
}

/// The outcome of decoding an optional string, seen from the outcome of
/// decoding a string that must be there.
pub open spec fn optional_outcome(outcome: Result<String, Error>) -> Result<Option<String>, Error> {
    match outcome {
        Ok(text) => Ok(Some(text)),
        Err(error) => Err(error),
    }
}

impl Deserialize for String {
    const NUM_BYTES: usize = 8;

    const ALIGNMENT: usize = 8;

    open spec fn layout() -> FieldLayout {
        FieldLayout { num_bytes: 8, alignment: 8 }
    }

    proof fn lemma_layout() {
        lemma_small_powers_of_two();
    }

    /// As for an optional string, but a zero pointer is an error that names
    /// `address`.
    open spec fn decodes(address: Address, events: Seq<ReadEvent>, outcome: Result<Self, Error>) -> bool {
        ||| decodes_string_pointer(address, events, Ok(None)) && outcome == Err::<String, Error>(
            Error::NullPtrError(address),
        )
        ||| decodes_string_pointer(address, events, optional_outcome(outcome))
    }

    fn deserialize<M: MemoryReader>(reader: &mut M, address: Address) -> (r: Result<Self, Error>) {
        match Option::<String>::deserialize(reader, address) {
            Ok(Some(string)) => Ok(string),
            Ok(None) => Err(Error::NullPtrError(address)),
            Err(e) => Err(e),
        }
    }
}

} // verus!
