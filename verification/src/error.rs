use vstd::prelude::*;

verus! {

/// The closed set of reasons a decode can fail.
///
/// Every decoder in this crate reports failure through one of these values;
/// no other failure channel exists. `ListLengthMismatch` carries the expected
/// and actual element counts for callers that validate tuple-like arities.
#[derive(Clone, Copy, Debug, PartialEq, Eq, Structural)]
pub enum Error {
    /// A length field exceeds the platform word, or an integer payload
    /// is wider than the requested integer type.
    Overflow,
    /// A length field or a stripped integer payload has a leading zero byte.
    LeadingZero,
    /// The input does not contain as many bytes as a header promises.
    InputTooShort,
    /// A single-byte payload below `0x80` was written with a length prefix
    /// instead of as the byte itself.
    NonCanonicalSingleByte,
    /// A long-form length was used for a payload that fits in short form.
    NonCanonicalSize,
    /// A fixed-width decode saw a payload of the wrong length, or a strict
    /// decode saw trailing bytes.
    UnexpectedLength,
    /// A string item appeared where a list was required.
    UnexpectedString,
    /// A list item appeared where a string was required.
    UnexpectedList,
    /// A decoded list had the wrong number of elements.
    ListLengthMismatch(usize, usize),
}

impl Error {
    /// The stable numeric code of this error kind.
    pub fn code(&self) -> (r: u8)
        ensures
            r == match self {
                Error::Overflow => 1u8,
                Error::LeadingZero => 2u8,
                Error::InputTooShort => 3u8,
                Error::NonCanonicalSingleByte => 4u8,
                Error::NonCanonicalSize => 5u8,
                Error::UnexpectedLength => 6u8,
                Error::UnexpectedString => 7u8,
                Error::UnexpectedList => 8u8,
                Error::ListLengthMismatch(_, _) => 9u8,
            },
    {
        match self {
            Error::Overflow => 1,
            Error::LeadingZero => 2,
            Error::InputTooShort => 3,
            Error::NonCanonicalSingleByte => 4,
            Error::NonCanonicalSize => 5,
            Error::UnexpectedLength => 6,
            Error::UnexpectedString => 7,
            Error::UnexpectedList => 8,
            Error::ListLengthMismatch(_, _) => 9,
        }
    }

    /// A short human-readable description of this error kind.
    pub fn message(&self) -> (r: &'static str)
        ensures
            (self is Overflow) ==> r@ == "numeric overflow"@,
            (self is LeadingZero) ==> r@ == "leading zero byte"@,
            (self is InputTooShort) ==> r@ == "input too short"@,
            (self is NonCanonicalSingleByte) ==> r@ == "non-canonical single byte"@,
            (self is NonCanonicalSize) ==> r@ == "non-canonical size"@,
            (self is UnexpectedLength) ==> r@ == "unexpected length"@,
            (self is UnexpectedString) ==> r@ == "unexpected string"@,
            (self is UnexpectedList) ==> r@ == "unexpected list"@,
            (self is ListLengthMismatch) ==> r@ == "list length mismatch"@,
    {
        match self {
            Error::Overflow => "numeric overflow",
            Error::LeadingZero => "leading zero byte",
            Error::InputTooShort => "input too short",
            Error::NonCanonicalSingleByte => "non-canonical single byte",
            Error::NonCanonicalSize => "non-canonical size",
            Error::UnexpectedLength => "unexpected length",
            Error::UnexpectedString => "unexpected string",
            Error::UnexpectedList => "unexpected list",
            Error::ListLengthMismatch(_, _) => "list length mismatch",
        }
    }
}

} // verus!
