//! A small markup parsing library: a run-length tokenizer and
//! recursive-descent parsers for headings, emphasis runs, links,
//! reference definitions and fenced code blocks, together with
//! serializers that invert them.
use vstd::prelude::*;

pub mod strutil;
pub mod url_value;
pub mod token;
pub mod text;
pub mod block;

verus! {

/// The error a parse returns: the closed set of ways an input can fail
/// to be one instance of a construct.
#[derive(Debug, Clone, PartialEq, Eq)]
pub enum ParseError {
    EmptyDocument,
    EmptyContent,
    UnexpectedChar(char),
    UnexpectedString(String),
    UnexpectedEnd,
    InvalidUrl(String),
    IncompleteBuilderData,
}

/// The abstract value of a `ParseError`: string payloads as character
/// sequences, and the URL error reduced to its kind.
pub ghost enum ParseErrorV {
    EmptyDocument,
    EmptyContent,
    UnexpectedChar(char),
    UnexpectedString(Seq<char>),
    UnexpectedEnd,
    InvalidUrl,
    IncompleteBuilderData,
}

impl View for ParseError {
    type V = ParseErrorV;

    open spec fn view(&self) -> ParseErrorV {
        match self {
            ParseError::EmptyDocument => ParseErrorV::EmptyDocument,
            ParseError::EmptyContent => ParseErrorV::EmptyContent,
            ParseError::UnexpectedChar(c) => ParseErrorV::UnexpectedChar(*c),
            ParseError::UnexpectedString(s) => ParseErrorV::UnexpectedString(s@),
            ParseError::UnexpectedEnd => ParseErrorV::UnexpectedEnd,
            ParseError::InvalidUrl(_) => ParseErrorV::InvalidUrl,
            ParseError::IncompleteBuilderData => ParseErrorV::IncompleteBuilderData,
        }
    }
}

/// The error a builder returns when it is finalized with required
/// fields missing.
#[derive(Debug, Clone, PartialEq, Eq, PartialOrd, Ord)]
pub enum Error {
    IncompleteData,
}

/// Marker for types that can serve as the content of a construct.
pub trait Content {

}

impl From<Error> for ParseError {
    fn from(value: Error) -> (r: Self) {
        match value {
            Error::IncompleteData => ParseError::IncompleteBuilderData,
        }
    }
}

impl vstd::std_specs::convert::FromSpecImpl<Error> for ParseError {
    open spec fn obeys_from_spec() -> bool {
        true
    }

    open spec fn from_spec(value: Error) -> Self {
        ParseError::IncompleteBuilderData
    }
}

} // verus!
