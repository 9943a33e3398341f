use vstd::prelude::*;

verus! {

/// Spec-level form of a conversion error; field names are character sequences.
pub enum ErrorSpec {
    ExpectedObject,
    ExpectedArray,
    ExpectedMap,
    ExpectedBoolean,
    ExpectedString,
    ExpectedI32,
    ExpectedU32,
    ExpectedI64,
    ExpectedF64,
    OutOfRange,
    InvalidField(Seq<char>),
    FieldNotFound(Seq<char>),
    FailedToGetPropertyNames,
    UnsupportedValueType,
}

/// A conversion failure. Every decoder is fail-fast: the first error in a
/// nested decode aborts the whole decode and is returned verbatim, carrying
/// the offending field name where one applies.
#[derive(Debug, Clone, PartialEq)]
pub enum Error {
    ExpectedObject,
    ExpectedArray,
    ExpectedMap,
    ExpectedBoolean,
    ExpectedString,
    ExpectedI32,
    ExpectedU32,
    ExpectedI64,
    ExpectedF64,
    OutOfRange,
    InvalidField(String),
    FieldNotFound(String),
    FailedToGetPropertyNames,
    UnsupportedValueType,
}

impl DeepView for Error {
    type V = ErrorSpec;

    open spec fn deep_view(&self) -> ErrorSpec {
        match self {
            Error::ExpectedObject => ErrorSpec::ExpectedObject,
            Error::ExpectedArray => ErrorSpec::ExpectedArray,
            Error::ExpectedMap => ErrorSpec::ExpectedMap,
            Error::ExpectedBoolean => ErrorSpec::ExpectedBoolean,
            Error::ExpectedString => ErrorSpec::ExpectedString,
            Error::ExpectedI32 => ErrorSpec::ExpectedI32,
            Error::ExpectedU32 => ErrorSpec::ExpectedU32,
            Error::ExpectedI64 => ErrorSpec::ExpectedI64,
            Error::ExpectedF64 => ErrorSpec::ExpectedF64,
            Error::OutOfRange => ErrorSpec::OutOfRange,
            Error::InvalidField(name) => ErrorSpec::InvalidField(name@),
            Error::FieldNotFound(name) => ErrorSpec::FieldNotFound(name@),
            Error::FailedToGetPropertyNames => ErrorSpec::FailedToGetPropertyNames,
            Error::UnsupportedValueType => ErrorSpec::UnsupportedValueType,
        }
    }
}

} // verus!
