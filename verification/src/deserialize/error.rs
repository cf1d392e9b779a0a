use crate::memory::Address;
use crate::text::hex_text;
use vstd::prelude::*;
use vstd::string::StringExecFns;

verus! {

/// `std::str::Utf8Error`: the reason why bytes are no text. It is carried
/// through as it is, and nothing is claimed of what it holds.
#[verifier::external_type_specification]
#[verifier::external_body]
pub struct ExUtf8Error(std::str::Utf8Error);

/// An error that occurs while attempting to deserialize a type from memory.
#[derive(Debug)]
pub enum Error {
    /// Integer overflow occurred on an address while deserializing.
    AddressOverflowError(Address),
    /// A string was not encoded correctly in memory.
    EncodingError(std::str::Utf8Error),
    /// An integral type conversion failed.
    IntConversionError(std::num::TryFromIntError),
    /// An IO error occurred while attempting to read memory.
    IoError(std::io::Error),
    /// A pointer was unexpectedly null.
    NullPtrError(Address),
    /// A sequence of characters expected to be null-terminated was not
    /// terminated before reaching the length limit.
    UnterminatedCStringError(Address),
    /// The memory that was read does not describe a usable structure.
    InvalidStateError(String),
    /// Another error, together with a description of where it happened.
    WithContext(Box<Error>, String),
}

/// `std::io::Error`'s `Display`: the text of an error of the reader.
#[verifier::external_body]
fn io_error_text(error: &std::io::Error) -> String {
    format!("{}", error)
}

/// `std::str::Utf8Error`'s `Display`: the text of an encoding error.
#[verifier::external_body]
fn utf8_error_text(error: &std::str::Utf8Error) -> String {
    format!("{}", error)
}

/// `std::num::TryFromIntError`'s `Display`: the text of a conversion error.
#[verifier::external_body]
fn int_error_text(error: &std::num::TryFromIntError) -> String {
    format!("{}", error)
}

impl Error {
    /// The message of this error, where it is the library's to choose: `None`
    /// for an error that came from elsewhere, with or without contexts around
    /// it. A context is put before the message of its cause, with a colon
    /// between them.
    pub open spec fn known_message(self) -> Option<Seq<char>>
        decreases self,
    {
        match self {
            Error::AddressOverflowError(address) => Some(
                "Overflow in address range starting at "@ + hex_text(address@ as nat),
            ),
            Error::NullPtrError(address) => Some("Unexpected null pointer at "@ + hex_text(address@ as nat)),
            Error::UnterminatedCStringError(address) => Some(
                "Unterminated C string beginnning at "@ + hex_text(address@ as nat),
            ),
            Error::InvalidStateError(state) => Some(state@),
            Error::WithContext(cause, context) => match cause.known_message() {
                Some(cause_text) => Some(context@ + ": "@ + cause_text),
                None => None,
            },
            _ => None,
        }
    }

    /// What the message of this error begins with, whatever its cause: its
    /// contexts, from the outermost in, each followed by a colon.
    pub open spec fn message_prefix(self) -> Seq<char>
        decreases self,
    {
        match self {
            Error::WithContext(cause, context) => context@ + ": "@ + cause.message_prefix(),
            _ => Seq::empty(),
        }
    }

    /// The message of this error.
    pub fn message(&self) -> (text: String)
        ensures
            self.known_message() matches Some(known) ==> text@ == known,
            self.message_prefix().is_prefix_of(text@),
        decreases *self,
    {
        match self {
            Error::AddressOverflowError(address) => String::from_str(
                "Overflow in address range starting at ",
            ).concat(address.to_string().as_str()),
            Error::EncodingError(error) => utf8_error_text(error),
            Error::IntConversionError(error) => int_error_text(error),
            Error::IoError(error) => io_error_text(error),
            Error::NullPtrError(address) => String::from_str("Unexpected null pointer at ").concat(
                address.to_string().as_str(),
            ),
            Error::UnterminatedCStringError(address) => String::from_str(
                "Unterminated C string beginnning at ",
            ).concat(address.to_string().as_str()),
            Error::InvalidStateError(state) => state.clone(),
            Error::WithContext(cause, context) => {
                let cause_text = cause.message();
                let text = context.clone().concat(": ").concat(cause_text.as_str());
                proof {
                    let before = context@ + ": "@;
                    assert(text@ == before + cause_text@);
                    assert(self.message_prefix() == before + cause.message_prefix());
                    assert((before + cause.message_prefix()).is_prefix_of(before + cause_text@));
                }
                text
            },
        }
    }

    /// The error at the bottom of the chain of contexts: the failure that was
    /// first reported.
    pub open spec fn spec_root_cause(self) -> Error
        decreases self,
    {
        match self {
            Error::WithContext(inner, _) => inner.spec_root_cause(),
            _ => self,
        }
    }

    /// The contexts wrapped around the root cause, outermost first.
    pub open spec fn spec_context_path(self) -> Seq<Seq<char>>
        decreases self,
    {
        match self {
            Error::WithContext(inner, context) => seq![context@] + inner.spec_context_path(),
            _ => Seq::empty(),
        }
    }

    /// How many contexts are wrapped around the root cause.
    pub open spec fn spec_depth(self) -> nat
        decreases self,
    {
        match self {
            Error::WithContext(inner, _) => 1 + inner.spec_depth(),
            _ => 0,
        }
    }

    /// Wraps this error in a description of where it happened. The error
    /// itself is kept as the cause.
    pub fn with_context(self, context: String) -> (r: Error)
        ensures
            r == Error::WithContext(Box::new(self), context),
            r.spec_root_cause() == self.spec_root_cause(),
            r.spec_context_path() == seq![context@] + self.spec_context_path(),
    {
        Error::WithContext(Box::new(self), context)
    }

    /// Whether this error is a context wrapped around another error.
    pub fn is_context(&self) -> (r: bool)
        ensures
            r <==> self is WithContext,
    {
        match self {
            Error::WithContext(_, _) => true,
            _ => false,
        }
    }

    /// The failure that was first reported, with every context taken off.
    pub fn root_cause(&self) -> (r: &Error)
        ensures
            *r == self.spec_root_cause(),
            !(r is WithContext),
        decreases *self,
    {
        match self {
            Error::WithContext(inner, _) => inner.root_cause(),
            _ => self,
        }
    }

    /// The contexts wrapped around the root cause, outermost first.
    pub fn context_path(&self) -> (r: Vec<String>)
        ensures
            r@.len() == self.spec_context_path().len(),
            forall|i: int| 0 <= i < r@.len() ==> (#[trigger] r@[i])@ == self.spec_context_path()[i],
    {
        let mut path: Vec<String> = Vec::new();
        let mut current: &Error = self;
        loop
            invariant
                self.spec_context_path() =~= Seq::new(path@.len(), |i: int| path@[i]@) + current.spec_context_path(),
            decreases *current,
        {
            match current {
                Error::WithContext(inner, context) => {
                    path.push(context.clone());
                    current = inner;
                },
                _ => {
                    return path;
                },
            }
        }
    }
}

/// Wrapping an error in any number of contexts keeps its root cause, and the
/// path lists the contexts from the outermost in.
pub proof fn lemma_context_keeps_cause(cause: Error, contexts: Seq<String>) -> (wrapped: Error)
    requires
        !(cause is WithContext),
    ensures
        wrapped.spec_root_cause() == cause,
        wrapped.spec_context_path() =~= Seq::new(contexts.len(), |i: int| contexts[i]@),
        wrapped.spec_depth() == contexts.len(),
    decreases contexts.len(),
{
    if contexts.len() == 0 {
        cause
    } else {
        let inner = lemma_context_keeps_cause(cause, contexts.drop_first());
        Error::WithContext(Box::new(inner), contexts[0])
    }
}

impl From<std::io::Error> for Error {
    fn from(error: std::io::Error) -> (r: Self) {
        Error::IoError(error)
    }
}

impl vstd::std_specs::convert::FromSpecImpl<std::io::Error> for Error {
    open spec fn obeys_from_spec() -> bool {
        true
    }

    open spec fn from_spec(error: std::io::Error) -> Self {
        Error::IoError(error)
    }
}

impl From<std::str::Utf8Error> for Error {
    fn from(error: std::str::Utf8Error) -> (r: Self) {
        Error::EncodingError(error)
    }
}

impl vstd::std_specs::convert::FromSpecImpl<std::str::Utf8Error> for Error {
    open spec fn obeys_from_spec() -> bool {
        true
    }

    open spec fn from_spec(error: std::str::Utf8Error) -> Self {
        Error::EncodingError(error)
    }
}

impl From<std::num::TryFromIntError> for Error {
    fn from(error: std::num::TryFromIntError) -> (r: Self) {
        Error::IntConversionError(error)
    }
}

impl vstd::std_specs::convert::FromSpecImpl<std::num::TryFromIntError> for Error {
    open spec fn obeys_from_spec() -> bool {
        true
    }

    open spec fn from_spec(error: std::num::TryFromIntError) -> Self {
        Error::IntConversionError(error)
    }
}

} // verus!
