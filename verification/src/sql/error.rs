//! Why a text is not a statement.

use super::reader;
use super::text;
use vstd::prelude::*;
use vstd::string::*;

verus! {

/// Why a text is not a statement.
#[derive(Clone, Debug, PartialEq)]
pub enum ParseError {
    EmptyQuery,
    MultipleStatements,
    MissingClause(String),
    UnsupportedStatement(String),
    UnsupportedDataType(String),
    UnsupportedExpression(String),
    InvalidIdentifier(String),
    SqlParser(String),
}

/// The view of `ParseError`.
#[verifier::ext_equal]
pub enum ParseErrorView {
    EmptyQuery,
    MultipleStatements,
    MissingClause(Seq<char>),
    UnsupportedStatement(Seq<char>),
    UnsupportedDataType(Seq<char>),
    UnsupportedExpression(Seq<char>),
    InvalidIdentifier(Seq<char>),
    SqlParser(Seq<char>),
}

/// The view of a value.
pub open spec fn parse_error_view(x: ParseError) -> ParseErrorView
{
    match x {
        ParseError::EmptyQuery => ParseErrorView::EmptyQuery,
        ParseError::MultipleStatements => ParseErrorView::MultipleStatements,
        ParseError::MissingClause(a) => ParseErrorView::MissingClause(a@),
        ParseError::UnsupportedStatement(a) => ParseErrorView::UnsupportedStatement(a@),
        ParseError::UnsupportedDataType(a) => ParseErrorView::UnsupportedDataType(a@),
        ParseError::UnsupportedExpression(a) => ParseErrorView::UnsupportedExpression(a@),
        ParseError::InvalidIdentifier(a) => ParseErrorView::InvalidIdentifier(a@),
        ParseError::SqlParser(a) => ParseErrorView::SqlParser(a@),
    }
}

impl View for ParseError {
    type V = ParseErrorView;

    open spec fn view(&self) -> ParseErrorView {
        parse_error_view(*self)
    }
}

/// The outcome of parsing.
pub type ParseResult<T> = Result<T, ParseError>;

/// The view of an outcome.
pub open spec fn outcome<T: View>(r: Result<T, ParseError>) -> Result<T::V, ParseErrorView> {
    match r {
        Ok(v) => Ok(v@),
        Err(e) => Err(e@),
    }
}

/// The message of an error.
pub open spec fn message(e: ParseErrorView) -> Seq<char> {
    match e {
        ParseErrorView::EmptyQuery => "Empty query"@,
        ParseErrorView::MultipleStatements => "Multiple statements not allowed"@,
        ParseErrorView::MissingClause(c) => "Missing clause: "@ + c,
        ParseErrorView::UnsupportedStatement(s) => "Unsupported statement: "@ + s,
        ParseErrorView::UnsupportedDataType(t) => "Unsupported data type: "@ + t,
        ParseErrorView::UnsupportedExpression(e) => "Unsupported expression: "@ + e,
        ParseErrorView::InvalidIdentifier(id) => "Invalid identifier: "@ + id,
        ParseErrorView::SqlParser(e) => "SQL parser error: "@ + e,
    }
}

impl ParseError {
    /// The message of the error.
    pub fn to_string(&self) -> (s: String)
        ensures
            s@ == message(self@),
    {
        match self {
            ParseError::EmptyQuery => "Empty query".to_owned(),
            ParseError::MultipleStatements => "Multiple statements not allowed".to_owned(),
            ParseError::MissingClause(c) => text::cat("Missing clause: ", c),
            ParseError::UnsupportedStatement(s) => text::cat("Unsupported statement: ", s),
            ParseError::UnsupportedDataType(t) => text::cat("Unsupported data type: ", t),
            ParseError::UnsupportedExpression(e) => text::cat("Unsupported expression: ", e),
            ParseError::InvalidIdentifier(id) => text::cat("Invalid identifier: ", id),
            ParseError::SqlParser(e) => text::cat("SQL parser error: ", e),
        }
    }

    /// The error for a text that the SQL parser refuses.
    pub fn from_parser(err: &sqlparser::parser::ParserError) -> (e: ParseError)
        ensures
            e@ == ParseErrorView::SqlParser(reader::error_text(*err)),
    {
        ParseError::SqlParser(reader::parser_error_text(err))
    }
}

impl From<sqlparser::parser::ParserError> for ParseError {
    fn from(err: sqlparser::parser::ParserError) -> (e: ParseError)
        ensures
            e@ == ParseErrorView::SqlParser(reader::error_text(err)),
    {
        ParseError::from_parser(&err)
    }
}

impl vstd::std_specs::convert::FromSpecImpl<sqlparser::parser::ParserError> for ParseError {
    open spec fn obeys_from_spec() -> bool {
        false
    }

    open spec fn from_spec(err: sqlparser::parser::ParserError) -> ParseError {
        arbitrary()
    }
}

} // verus!
