//! The errors of the typed encoder and decoder.
use vstd::prelude::*;

verus! {

#[derive(Clone, Debug, PartialEq, Eq)]
pub enum Error {
    /// A failure raised by the data model driving the codec, with its description.
    Message(String),
    UnknownSegmentType,
    LengthNotFound,
    StackProblem,
    NonUtf8Str,
    UnsupportedType,
    Eof,
    ParsingLength,
    UnusedParseData,
    ParsingUnit,
    ParsingBool,
    ParsingMap,
    ParsingEnum,
    ParsingUnsigned,
    ParsingString,
    ParsingSeq,
    ParsingUnitVariant,
}

/// The text that describes each error.
pub open spec fn description_of(e: &Error) -> Seq<char> {
    match e {
        Error::Message(msg) => msg@,
        Error::UnknownSegmentType => "unknown segment type"@,
        Error::LengthNotFound => "length not found but required"@,
        Error::StackProblem => "stack problem"@,
        Error::UnusedParseData => "unused parse data"@,
        Error::ParsingUnit => "error parsing unit"@,
        Error::ParsingBool => "error parsing bool"@,
        Error::ParsingMap => "error parsing map"@,
        Error::ParsingEnum => "error parsing enum"@,
        Error::ParsingUnsigned => "error parsing unsigned"@,
        Error::ParsingString => "error parsing string"@,
        Error::ParsingSeq => "error parsing sequence"@,
        Error::ParsingUnitVariant => "error parsing unit variant"@,
        Error::Eof => "error eof"@,
        Error::UnsupportedType => "unsupported type"@,
        Error::ParsingLength => "error parsing data length"@,
        Error::NonUtf8Str => "error parsing string that wasn't utf8"@,
    }
}

impl Error {
    /// A short human-readable description of the error.
    pub fn description(&self) -> (r: &str)
        ensures
            r@ == description_of(self),
    {
        match self {
            Error::Message(msg) => msg.as_str(),
            Error::UnknownSegmentType => "unknown segment type",
            Error::LengthNotFound => "length not found but required",
            Error::StackProblem => "stack problem",
            Error::UnusedParseData => "unused parse data",
            Error::ParsingUnit => "error parsing unit",
            Error::ParsingBool => "error parsing bool",
            Error::ParsingMap => "error parsing map",
            Error::ParsingEnum => "error parsing enum",
            Error::ParsingUnsigned => "error parsing unsigned",
            Error::ParsingString => "error parsing string",
            Error::ParsingSeq => "error parsing sequence",
            Error::ParsingUnitVariant => "error parsing unit variant",
            Error::Eof => "error eof",
            Error::UnsupportedType => "unsupported type",
            Error::ParsingLength => "error parsing data length",
            Error::NonUtf8Str => "error parsing string that wasn't utf8",
        }
    }
}

} // verus!
