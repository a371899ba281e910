//! The query string.

use vstd::prelude::*;
#[allow(unused_imports)]
use vstd::string::StringExecFns;

use crate::openapi::builtins::Query;
use crate::text::copy_text;

verus! {

/// An error occurred while parsing the query string.
///
/// It carries the parser's own message, so the answer tells which parameter was wrong.
#[derive(Debug, Clone)]
pub struct QueryError(String);

impl QueryError {
    /// What the parser said.
    pub closed spec fn detail(&self) -> Seq<char> {
        self.0@
    }

    /// Report what the parser said.
    pub fn new(detail: &str) -> (r: Self)
        ensures
            r.detail() == detail@,
    {
        QueryError(copy_text(detail))
    }

    /// The error's text.
    pub fn message(&self) -> (r: String)
        ensures
            r@ == "Failed to parse query string: "@ + self.detail(),
    {
        let mut text = copy_text("Failed to parse query string: ");
        text.append(self.0.as_str());
        text
    }

    /// The status the error is answered with.
    pub fn status(&self) -> (r: u16)
        ensures
            r == 400,
    {
        400
    }
}

/// The text that is parsed for a request: its query, or nothing.
pub open spec fn queried(query: Option<&str>) -> Seq<char> {
    match query {
        Some(query) => query@,
        None => ""@,
    }
}

/// The text that is parsed for a request: its query, or nothing.
pub fn query_text(query: Option<&str>) -> (r: String)
    ensures
        r@ == queried(query),
{
    match query {
        Some(query) => copy_text(query),
        None => copy_text(""),
    }
}

/// Whether a parser may make `parsed` of a query.
pub open spec fn may_parse_query<T, P: Fn(&String) -> Result<T, String>>(
    parse: P,
    query: Seq<char>,
    parsed: Result<T, String>,
) -> bool {
    exists|given: String| given@ == query && #[trigger] call_ensures(parse, (&given,), parsed)
}

impl<T> Query<T> {
    /// Extract a value from the query of a request, given a parser; a request without a query is
    /// parsed like one with an empty query.
    pub fn extract<P: Fn(&String) -> Result<T, String>>(query: Option<&str>, parse: P) -> (r: Result<
        Query<T>,
        QueryError,
    >)
        requires
            forall|text: &String| call_requires(parse, (text,)),
        ensures
            exists|parsed: Result<T, String>| #[trigger]
                may_parse_query(
                    parse,
                    queried(query),
                    parsed,
                ) && match parsed {
                    Ok(value) => r == Ok::<Query<T>, QueryError>(Query(value)),
                    Err(detail) => r matches Err(error) && error.detail() == detail@,
                },
    {
        let text = query_text(query);
        let parsed = parse(&text);
        assert(may_parse_query(parse, text@, parsed));
        match parsed {
            Ok(value) => Ok(Query(value)),
            Err(detail) => Err(QueryError(detail)),
        }
    }
}

/// A query is parsed as it is, and a request without one like a request with an empty one.
pub proof fn a_missing_query_is_empty(query: &str)
    ensures
        queried(Some(query)) == query@,
        queried(None).len() == 0,
{
    reveal_strlit("");
}

} // verus!
