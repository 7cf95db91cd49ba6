use vstd::prelude::*;

verus! {

/// The closed set of failures that reading an s-expression can produce.
/// Every failure is recoverable: a failed parse discards the work of that
/// call and nothing else.
///
/// `InvalidEscape` is part of the taxonomy but is never raised by the
/// current string decoding, which passes unrecognized escaped characters
/// through verbatim.
#[derive(Clone, Copy, Debug, PartialEq, Eq, Structural)]
pub enum Error {
    EmptyInput,
    InvalidEscape,
    MissingAtom,
    MissingHashMapValue,
    UnbalancedCollection,
    UnbalancedString,
    UnsupportedHashMapKeyType,
}

impl Error {
    /// The one-line rendering of this error, as the surrounding REPL
    /// displays it.
    pub open spec fn spec_message(self) -> Seq<char> {
        match self {
            Error::EmptyInput => "Error: empty input"@,
            Error::InvalidEscape => "Error: invalid escape"@,
            Error::MissingAtom => "Error: missing atom"@,
            Error::MissingHashMapValue => "Error: missing hash-map value"@,
            Error::UnbalancedCollection => "Error: unbalanced collection"@,
            Error::UnbalancedString => "Error: unbalanced string"@,
            Error::UnsupportedHashMapKeyType => "Error: unsupported hash-map key type"@,
        }
    }

    /// Renders this error as its display line.
    pub fn message(&self) -> (r: String)
        ensures
            r@ == self.spec_message(),
    {
        match self {
            Error::EmptyInput => "Error: empty input".to_owned(),
            Error::InvalidEscape => "Error: invalid escape".to_owned(),
            Error::MissingAtom => "Error: missing atom".to_owned(),
            Error::MissingHashMapValue => "Error: missing hash-map value".to_owned(),
            Error::UnbalancedCollection => "Error: unbalanced collection".to_owned(),
            Error::UnbalancedString => "Error: unbalanced string".to_owned(),
            Error::UnsupportedHashMapKeyType => "Error: unsupported hash-map key type".to_owned(),
        }
    }
}

} // verus!
