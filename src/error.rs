use vstd::prelude::*;

verus! {

/// Why a line does not follow the line protocol grammar.
#[derive(Clone, Copy, Debug, PartialEq, Eq, Structural)]
pub enum Malformation {
    /// Nothing is left once trailing newlines are stripped.
    Empty,
    /// The input ended before the character that closes a region.
    UnterminatedRegion,
    /// A backslash is the last character of the input.
    UnterminatedEscape,
    /// A tag key is not followed by `=`.
    TagWithoutValue,
    /// A tag value is closed by `=`.
    EqualsInTagValue,
    /// A closing quote is followed by something other than `,` or a space.
    UnexpectedAfterString,
    /// The integer suffix `i` is followed by something other than `,` or a space.
    BadIntegerSuffix,
    /// The input ended inside an unquoted field value.
    UnterminatedFieldValue,
    /// An unquoted field value is neither a boolean, a float nor an integer.
    BadFieldValue,
    /// What follows the fields is not an unsigned 64-bit decimal number.
    BadTimestamp,
}

/// Why a line could not be decoded.
#[derive(Clone, Copy, Debug, PartialEq, Eq, Structural)]
pub enum DecodeError {
    /// The bytes are not valid UTF-8.
    InvalidUtf8,
    /// The text breaks the grammar.
    Malformed(Malformation),
}

/// Why a data point could not be encoded.
#[derive(Clone, Copy, Debug, PartialEq, Eq, Structural)]
pub enum EncodeError {
    /// A field holds an array, an object or null.
    NonScalarField,
}

/// A short description of each reason.
pub open spec fn reason_text(m: Malformation) -> Seq<char> {
    match m {
        Malformation::Empty => "empty"@,
        Malformation::UnterminatedRegion => "unterminated region"@,
        Malformation::UnterminatedEscape => "unterminated escape"@,
        Malformation::TagWithoutValue => "tag without value"@,
        Malformation::EqualsInTagValue => "equals in tag value"@,
        Malformation::UnexpectedAfterString => "unexpected character after string"@,
        Malformation::BadIntegerSuffix => "bad integer suffix"@,
        Malformation::UnterminatedFieldValue => "unterminated field value"@,
        Malformation::BadFieldValue => "bad field value"@,
        Malformation::BadTimestamp => "bad timestamp"@,
    }
}

impl Malformation {
    /// A short description of the reason.
    pub fn reason(&self) -> (r: &'static str)
        ensures
            r@ == reason_text(*self),
    {
        match self {
            Malformation::Empty => "empty",
            Malformation::UnterminatedRegion => "unterminated region",
            Malformation::UnterminatedEscape => "unterminated escape",
            Malformation::TagWithoutValue => "tag without value",
            Malformation::EqualsInTagValue => "equals in tag value",
            Malformation::UnexpectedAfterString => "unexpected character after string",
            Malformation::BadIntegerSuffix => "bad integer suffix",
            Malformation::UnterminatedFieldValue => "unterminated field value",
            Malformation::BadFieldValue => "bad field value",
            Malformation::BadTimestamp => "bad timestamp",
        }
    }
}

} // verus!
