//! The errors of the crate.

use crate::execute;
use vstd::prelude::*;
use vstd::string::StringExecFns;

verus! {

/// Why a template could not be compiled.
#[derive(Debug, PartialEq, Eq)]
pub enum ParseError {
    /// The text refers to `$binding`, and no binding has that name.
    UndefinedBinding { binding: String },
    /// A `$` is followed neither by an identifier nor by a second `$`.
    /// `found` is the character after the `$`, or `None` at the end of the text.
    EmptyIdentifier { found: Option<char> },
    /// The binding `binding` is never referred to by the text.
    UnusedBinding { binding: String },
}

/// The mathematical value of a [`ParseError`]: names are sequences of characters.
pub enum ParseErrorView {
    UndefinedBinding { binding: Seq<char> },
    EmptyIdentifier { found: Option<char> },
    UnusedBinding { binding: Seq<char> },
}

impl View for ParseError {
    type V = ParseErrorView;

    open spec fn view(&self) -> ParseErrorView {
        match self {
            ParseError::UndefinedBinding { binding } => ParseErrorView::UndefinedBinding {
                binding: binding@,
            },
            ParseError::EmptyIdentifier { found } => ParseErrorView::EmptyIdentifier {
                found: *found,
            },
            ParseError::UnusedBinding { binding } => ParseErrorView::UnusedBinding {
                binding: binding@,
            },
        }
    }
}

/// Any error that this crate may produce.
#[derive(Debug, PartialEq, Eq)]
pub enum Error {
    /// The result of a query was not what was asked for.
    Execute(execute::Error),
    /// The text of a query could not be compiled.
    Parse(ParseError),
}

impl From<execute::Error> for Error {
    fn from(error: execute::Error) -> (wrapped: Error) {
        Error::Execute(error)
    }
}

impl vstd::std_specs::convert::FromSpecImpl<execute::Error> for Error {
    open spec fn obeys_from_spec() -> bool {
        true
    }

    open spec fn from_spec(error: execute::Error) -> Error {
        Error::Execute(error)
    }
}

impl From<ParseError> for Error {
    fn from(error: ParseError) -> (wrapped: Error) {
        Error::Parse(error)
    }
}

impl vstd::std_specs::convert::FromSpecImpl<ParseError> for Error {
    open spec fn obeys_from_spec() -> bool {
        true
    }

    open spec fn from_spec(error: ParseError) -> Error {
        Error::Parse(error)
    }
}

impl ParseErrorView {
    /// The error in words.
    pub open spec fn message(self) -> Seq<char> {
        match self {
            ParseErrorView::UndefinedBinding { binding } => "failed to find binding matching `$"@
                + binding + "`"@,
            ParseErrorView::EmptyIdentifier { found } => "expected an identifier, found '"@
                + match found {
                Some(next) => seq![next],
                None => "EOF"@,
            } + "'. Dollar signs may be escaped: `$$`."@,
            ParseErrorView::UnusedBinding { binding } => "unused argument `$"@ + binding + "`"@,
        }
    }
}

impl ParseError {
    /// The error in words; see [`ParseErrorView::message`].
    pub fn message(&self) -> (message: String)
        ensures
            message@ == self@.message(),
    {
        match self {
            ParseError::UndefinedBinding { binding } => {
                let mut message = "failed to find binding matching `$".to_owned();
                message.append(binding.as_str());
                message.append("`");
                message
            },
            ParseError::EmptyIdentifier { found } => {
                let mut message = "expected an identifier, found '".to_owned();
                match found {
                    Some(next) => {
                        let ghost before = message@;
                        message.push(*next);
                        assert(message@ =~= before + seq![*next]);
                    },
                    None => {
                        message.append("EOF");
                    },
                }
                message.append("'. Dollar signs may be escaped: `$$`.");
                message
            },
            ParseError::UnusedBinding { binding } => {
                let mut message = "unused argument `$".to_owned();
                message.append(binding.as_str());
                message.append("`");
                message
            },
        }
    }
}

impl Error {
    /// The error in words.
    pub fn message(&self) -> (message: String)
        ensures
            message@ == match self {
                Error::Execute(_) => "failed to execute the query"@,
                Error::Parse(e) => "failed to parse query: "@ + e@.message(),
            },
    {
        match self {
            Error::Execute(_) => "failed to execute the query".to_owned(),
            Error::Parse(e) => {
                let mut message = "failed to parse query: ".to_owned();
                message.append(e.message().as_str());
                message
            },
        }
    }
}

} // verus!
