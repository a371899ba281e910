//! Bearer tokens in the `Authorization` header.

use vstd::prelude::*;

use crate::middleware::headers::HeaderField;
use crate::openapi::schema::{ExtractorSchema, ParameterLocation};
#[allow(unused_imports)]
use crate::text::{
    content_start, is_blank_text, is_white_space, lemma_content_start_bounds, lowercase, trim_start,
};
use crate::text::{
    chars_of, copy_text, same_ignoring_case, slice_chars, slice_text, string_of, trim_start_chars,
    white_space, Padding,
};

verus! {

/// Bearer token extracted from the Authorization header.
#[derive(Debug, Clone)]
pub struct BearerToken(pub String);

/// Error returned when extracting a Bearer token fails.
#[derive(Debug, Clone, Copy, PartialEq, Eq)]
pub enum BearerTokenError {
    /// The Authorization header is missing from the request.
    MissingHeader,
    /// The Authorization header value is not text.
    InvalidEncoding,
    /// The Authorization header does not use the Bearer scheme.
    NotBearer,
}

impl BearerTokenError {
    /// The error's text.
    pub fn message(&self) -> (r: String)
        ensures
            r@ == match self {
                BearerTokenError::MissingHeader => "Missing Authorization header"@,
                BearerTokenError::InvalidEncoding => "Invalid Authorization header encoding"@,
                BearerTokenError::NotBearer => "Authorization header must use Bearer scheme"@,
            },
    {
        match self {
            BearerTokenError::MissingHeader => copy_text("Missing Authorization header"),
            BearerTokenError::InvalidEncoding => copy_text("Invalid Authorization header encoding"),
            BearerTokenError::NotBearer => copy_text("Authorization header must use Bearer scheme"),
        }
    }

    /// The status the error is answered with.
    pub fn status(&self) -> (r: u16)
        ensures
            r == 401,
    {
        401
    }
}

/// The index of the first white space in `s` at or after `from`, or the length.
pub open spec fn first_blank(s: Seq<char>, from: int) -> int
    decreases s.len() - from,
{
    if from < 0 || from >= s.len() {
        s.len() as int
    } else if is_white_space(s[from]) {
        from
    } else {
        first_blank(s, from + 1)
    }
}

/// The token of a Bearer credential. The scheme counts whatever its case, and any amount of white
/// space may stand before the token, which may not be empty.
pub open spec fn bearer_token(value: Seq<char>) -> Option<Seq<char>> {
    let at = first_blank(value, 0);
    if at >= value.len() || lowercase(value.subrange(0, at)) != lowercase("bearer"@) {
        None
    } else {
        let token = trim_start(
            value.subrange(at + 1, value.len() as int),
            Padding::WhiteSpace,
        );
        if token.len() == 0 {
            None
        } else {
            Some(token)
        }
    }
}

/// The token an `Authorization` header carries, or why it carries none.
pub open spec fn parsed_bearer(header: HeaderField) -> Result<Seq<char>, BearerTokenError> {
    match header {
        HeaderField::Absent => Err(BearerTokenError::MissingHeader),
        HeaderField::Opaque => Err(BearerTokenError::InvalidEncoding),
        HeaderField::Text(value) => match bearer_token(value@) {
            Some(token) => Ok(token),
            None => Err(BearerTokenError::NotBearer),
        },
    }
}

/// Parse a Bearer token from the `Authorization` header of a request.
pub fn parse_bearer(header: &HeaderField) -> (r: Result<String, BearerTokenError>)
    ensures
        match r {
            Ok(token) => parsed_bearer(*header) == Ok::<Seq<char>, BearerTokenError>(token@),
            Err(error) => parsed_bearer(*header) == Err::<Seq<char>, BearerTokenError>(error),
        },
{
    match header {
        HeaderField::Absent => Err(BearerTokenError::MissingHeader),
        HeaderField::Opaque => Err(BearerTokenError::InvalidEncoding),
        HeaderField::Text(value) => {
            let chars = chars_of(value.as_str());
            let mut at: usize = 0;
            while at < chars.len() && !white_space(chars[at])
                invariant
                    at <= chars.len(),
                    first_blank(chars@, 0) == first_blank(chars@, at as int),
                decreases chars.len() - at,
            {
                at = at + 1;
            }
            if at >= chars.len() {
                return Err(BearerTokenError::NotBearer);
            }
            let scheme = slice_text(&chars, 0, at);
            if !same_ignoring_case(scheme.as_str(), "bearer") {
                return Err(BearerTokenError::NotBearer);
            }
            let rest = slice_chars(&chars, at + 1, chars.len());
            let token = trim_start_chars(&rest, Padding::WhiteSpace);
            if token.len() == 0 {
                return Err(BearerTokenError::NotBearer);
            }
            Ok(string_of(&token))
        },
    }
}

impl BearerToken {
    /// What the extractor contributes to the OpenAPI document.
    pub fn openapi() -> (r: ExtractorSchema)
        ensures
            r.location == ParameterLocation::Header,
            r.content_type is None,
            r.schema is None,
    {
        ExtractorSchema { location: ParameterLocation::Header, content_type: None, schema: None }
    }

    /// Extract the token from the `Authorization` header of a request.
    pub fn extract(header: &HeaderField) -> (r: Result<BearerToken, BearerTokenError>)
        ensures
            match r {
                Ok(token) => parsed_bearer(*header) == Ok::<Seq<char>, BearerTokenError>(token.0@),
                Err(error) => parsed_bearer(*header) == Err::<Seq<char>, BearerTokenError>(error),
            },
    {
        match parse_bearer(header) {
            Ok(token) => Ok(BearerToken(token)),
            Err(error) => Err(error),
        }
    }
}

/// A token never starts with white space.
pub proof fn a_token_starts_with_its_text(value: Seq<char>)
    requires
        bearer_token(value) is Some,
    ensures
        !is_white_space(bearer_token(value)->0[0]),
{
    let at = first_blank(value, 0);
    let rest = value.subrange(at + 1, value.len() as int);
    lemma_content_start_bounds(rest, Padding::WhiteSpace, 0);
}

proof fn lemma_first_blank(head: Seq<char>, tail: Seq<char>, from: int)
    requires
        0 <= from <= head.len(),
        forall|i: int| 0 <= i < head.len() ==> !is_white_space(#[trigger] head[i]),
        tail.len() > 0 ==> is_white_space(tail[0]),
    ensures
        first_blank(head + tail, from) == head.len(),
    decreases head.len() - from,
{
    if from < head.len() {
        assert((head + tail)[from] == head[from]);
        lemma_first_blank(head, tail, from + 1);
    } else if tail.len() > 0 {
        assert((head + tail)[from] == tail[0]);
    }
}

/// Whatever the case of the scheme and however much white space follows it, the token of a Bearer
/// credential is all that stands behind. A credential of another scheme has none.
pub proof fn the_token_is_what_follows_the_scheme(
    scheme: Seq<char>,
    blanks: Seq<char>,
    token: Seq<char>,
)
    requires
        forall|i: int| 0 <= i < scheme.len() ==> !is_white_space(#[trigger] scheme[i]),
        blanks.len() > 0,
        is_blank_text(blanks, Padding::WhiteSpace),
        token.len() > 0,
        !is_white_space(token[0]),
    ensures
        lowercase(scheme) == "bearer"@ ==> bearer_token(scheme + blanks + token) == Some(token),
        lowercase(scheme) != "bearer"@ ==> bearer_token(scheme + blanks + token) is None,
        bearer_token(scheme + blanks) is None,
        bearer_token(scheme) is None,
{
    reveal_strlit("bearer");
    assert(lowercase("bearer"@) =~= "bearer"@);
    let whole = scheme + blanks + token;
    let at = scheme.len() as int;
    let none = Seq::<char>::empty();
    lemma_first_blank(scheme, blanks + token, 0);
    lemma_first_blank(scheme, blanks, 0);
    lemma_first_blank(scheme, none, 0);
    assert(scheme + none =~= scheme);
    assert(scheme + (blanks + token) =~= whole);
    assert(whole.subrange(0, at) =~= scheme);
    assert((scheme + blanks).subrange(0, at) =~= scheme);
    let left = blanks.drop_first();
    assert(is_blank_text(left, Padding::WhiteSpace));
    assert(whole.subrange(at + 1, whole.len() as int) =~= left + token);
    assert((scheme + blanks).subrange(at + 1, (scheme + blanks).len() as int) =~= left);
    lemma_blank_start(left, token, 0);
    lemma_blank_start(left, none, 0);
    assert(left + none =~= left);
    assert(trim_start(left + token, Padding::WhiteSpace) =~= token);
}

proof fn lemma_blank_start(lead: Seq<char>, s: Seq<char>, from: int)
    requires
        0 <= from <= lead.len(),
        is_blank_text(lead, Padding::WhiteSpace),
        s.len() > 0 ==> !is_white_space(s[0]),
    ensures
        content_start(lead + s, Padding::WhiteSpace, from) == lead.len(),
    decreases lead.len() - from,
{
    if from < lead.len() {
        assert((lead + s)[from] == lead[from]);
        lemma_blank_start(lead, s, from + 1);
    } else if s.len() > 0 {
        assert((lead + s)[from] == s[0]);
    }
}

/// A request without the header, with a header that is no text, and with one of another scheme are
/// told apart; any other carries its token.
pub proof fn a_missing_token_is_told_why(value: String, token: Seq<char>)
    ensures
        parsed_bearer(HeaderField::Absent) == Err::<Seq<char>, BearerTokenError>(
            BearerTokenError::MissingHeader,
        ),
        parsed_bearer(HeaderField::Opaque) == Err::<Seq<char>, BearerTokenError>(
            BearerTokenError::InvalidEncoding,
        ),
        bearer_token(value@) is None ==> parsed_bearer(HeaderField::Text(value)) == Err::<
            Seq<char>,
            BearerTokenError,
        >(BearerTokenError::NotBearer),
        bearer_token(value@) == Some(token) ==> parsed_bearer(HeaderField::Text(value)) == Ok::<
            Seq<char>,
            BearerTokenError,
        >(token),
{
}

} // verus!
