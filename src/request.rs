use crate::error::LookupError;
use reqwest::header::HeaderValue;
use vstd::prelude::*;
use vstd::string::*;
use vstd::utf8::encode_utf8;

verus! {

/// The REST API root of public GitHub.
pub const DEFAULT_API_ROOT: &'static str = "https://api.github.com/";

/// The user agent sent with each request.
pub const DEFAULT_USER_AGENT: &'static str = "github.com/celeo/github_version_check";

/// The media type of the REST API version that responses are parsed as.
pub const DEFAULT_ACCEPT_HEADER: &'static str = "application/vnd.github.v3+json";

/// The name of the header that carries the user agent.
pub const USER_AGENT_NAME: &'static str = "user-agent";

/// The name of the header that carries the accepted media type.
pub const ACCEPT_NAME: &'static str = "accept";

/// The name of the header that carries the access token.
pub const AUTHORIZATION_NAME: &'static str = "authorization";

/// The scheme written before an access token.
pub const BEARER_PREFIX: &'static str = "Bearer ";

/// A byte that a header value may hold: a tab, or any byte from space up but DEL.
pub open spec fn is_header_value_byte(b: u8) -> bool {
    (b >= 32 && b != 127) || b == 9
}

/// Every byte of the UTF-8 encoding of `text` may stand in a header value.
pub open spec fn header_text_ok(text: Seq<char>) -> bool {
    forall|i: int|
        0 <= i < encode_utf8(text).len() ==> is_header_value_byte(#[trigger] encode_utf8(text)[i])
}

/// Relies on `HeaderValue::from_str`, which accepts a text exactly when each of its
/// bytes is a tab or lies from space up but DEL.
#[verifier::external_body]
fn valid_header_value(text: &str) -> (r: bool)
    ensures
        r == header_text_ok(text@),
{
    HeaderValue::from_str(text).is_ok()
}

/// The headers sent with each request, as (name, value) pairs: the user agent, the
/// accepted media type, and, where a token is given, `Bearer` and the token.
pub open spec fn headers_for(token: Option<Seq<char>>) -> Seq<(Seq<char>, Seq<char>)> {
    let fixed = seq![
        (USER_AGENT_NAME@, DEFAULT_USER_AGENT@),
        (ACCEPT_NAME@, DEFAULT_ACCEPT_HEADER@),
    ];
    match token {
        Some(t) => fixed.push((AUTHORIZATION_NAME@, BEARER_PREFIX@ + t)),
        None => fixed,
    }
}

/// The text of an optional token.
pub open spec fn token_text(token: Option<&str>) -> Option<Seq<char>> {
    match token {
        Some(t) => Some(t@),
        None => None,
    }
}

/// The views of a sequence of (name, value) pairs.
pub open spec fn pairs_of(v: Seq<(String, String)>) -> Seq<(Seq<char>, Seq<char>)> {
    v.map_values(|p: (String, String)| (p.0@, p.1@))
}

/// Generates the headers that requests to the API carry. Fails with `HeaderValue`
/// exactly where one of the values cannot stand in a header.
pub fn generate_headers(token: Option<&str>) -> (r: Result<Vec<(String, String)>, LookupError>)
    ensures
        match r {
            Ok(v) => pairs_of(v@) == headers_for(
                token_text(token),
            ) && forall|i: int|
                0 <= i < v@.len() ==> header_text_ok(#[trigger] headers_for(token_text(token))[i].1),
            Err(e) => e == LookupError::HeaderValue && exists|i: int|
                0 <= i < headers_for(token_text(token)).len() && !header_text_ok(
                    #[trigger] headers_for(token_text(token))[i].1,
                ),
        },
{
    let ghost want = headers_for(token_text(token));
    let mut headers: Vec<(String, String)> = Vec::new();
    if !valid_header_value(DEFAULT_USER_AGENT) {
        assert(!header_text_ok(want[0].1));
        return Err(LookupError::HeaderValue);
    }
    headers.push((USER_AGENT_NAME.to_owned(), DEFAULT_USER_AGENT.to_owned()));
    if !valid_header_value(DEFAULT_ACCEPT_HEADER) {
        assert(!header_text_ok(want[1].1));
        return Err(LookupError::HeaderValue);
    }
    headers.push((ACCEPT_NAME.to_owned(), DEFAULT_ACCEPT_HEADER.to_owned()));
    match token {
        Some(t) => {
            let value = BEARER_PREFIX.to_owned().concat(t);
            if !valid_header_value(value.as_str()) {
                assert(!header_text_ok(want[2].1));
                return Err(LookupError::HeaderValue);
            }
            headers.push((AUTHORIZATION_NAME.to_owned(), value));
        },
        None => {},
    }
    assert(pairs_of(headers@) =~= want);
    Ok(headers)
}

/// The address of the release list of `repository` under the API root `api_root`,
/// which ends in a slash: `{api_root}repos/{repository}/releases`.
pub fn releases_url(api_root: &str, repository: &str) -> (r: String)
    ensures
        r@ == api_root@ + "repos/"@ + repository@ + "/releases"@,
{
    api_root.to_owned().concat("repos/").concat(repository).concat("/releases")
}

} // verus!
