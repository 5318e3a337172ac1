//! `VttParserError`: what reading a caption block can fail with.

use vstd::prelude::*;

verus! {

/// Error type for VttParser.
#[derive(Debug, Clone)]
pub enum VttParserError {
    UnexpectedEndOfFile,
    ExpectedBlankLine(String),
    ExpectedBlockNumber(String),
    BlockHeaderInvalid(String),
    InvalidTimestamp(String),
}

/// The mathematical value of a `VttParserError`: its kind and the text it carries.
pub enum ParseError {
    UnexpectedEndOfFile,
    ExpectedBlankLine(Seq<char>),
    ExpectedBlockNumber(Seq<char>),
    BlockHeaderInvalid(Seq<char>),
    InvalidTimestamp(Seq<char>),
}

impl View for VttParserError {
    type V = ParseError;

    open spec fn view(&self) -> ParseError {
        match self {
            VttParserError::UnexpectedEndOfFile => ParseError::UnexpectedEndOfFile,
            VttParserError::ExpectedBlankLine(s) => ParseError::ExpectedBlankLine(s@),
            VttParserError::ExpectedBlockNumber(s) => ParseError::ExpectedBlockNumber(s@),
            VttParserError::BlockHeaderInvalid(s) => ParseError::BlockHeaderInvalid(s@),
            VttParserError::InvalidTimestamp(s) => ParseError::InvalidTimestamp(s@),
        }
    }
}

/// The message of an error: what went wrong, then the text it concerns.
pub open spec fn error_message(e: ParseError) -> Seq<char> {
    match e {
        ParseError::UnexpectedEndOfFile => "unexpected end of file"@,
        ParseError::ExpectedBlankLine(s) => "expected blank line, got "@ + s,
        ParseError::ExpectedBlockNumber(s) => "expected VTT block number, got "@ + s,
        ParseError::BlockHeaderInvalid(s) => "invalid VTT block from line "@ + s,
        ParseError::InvalidTimestamp(s) => "invalid VTT block from word "@ + s,
    }
}

impl VttParserError {
    /// The error's message.
    pub fn to_string(&self) -> (r: String)
        ensures
            r@ == error_message(self@),
    {
        match self {
            VttParserError::UnexpectedEndOfFile => "unexpected end of file".to_owned(),
            VttParserError::ExpectedBlankLine(s) => {
                let mut m = "expected blank line, got ".to_owned();
                m.append(s.as_str());
                m
            },
            VttParserError::ExpectedBlockNumber(s) => {
                let mut m = "expected VTT block number, got ".to_owned();
                m.append(s.as_str());
                m
            },
            VttParserError::BlockHeaderInvalid(s) => {
                let mut m = "invalid VTT block from line ".to_owned();
                m.append(s.as_str());
                m
            },
            VttParserError::InvalidTimestamp(s) => {
                let mut m = "invalid VTT block from word ".to_owned();
                m.append(s.as_str());
                m
            },
        }
    }
}

} // verus!
