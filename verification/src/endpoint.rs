//! Where requests go: the endpoint URL a client posts to, resolved from a
//! base URL or a configured setting, and the API key it sends, if any.
//!
//! URL parsing and joining are the `url` crate's; what they give is named
//! here, and the rule laid over them (a pathless base gets the systemone
//! path joined, a URL with a path is the complete endpoint) is proved.

use vstd::prelude::*;

use crate::attrs::opt_view;
use crate::error::{JevError, JevResult};
use crate::text::{chars_of, concat, concat3, trim, trimmed};

verus! {

/// The cloud base URL used when no URL is configured.
pub const DEFAULT_BASE_URL: &'static str = "https://api.typesafe.ai";

/// The path joined onto a pathless base URL.
pub const SYSTEMONE_PATH: &'static str = "v1/systemone";

/// What `url::Url::parse` gives for `raw`: the parsed URL's serialization
/// (`Url::as_str`), or the text of the `ParseError` (its `Display`) where
/// it refuses the text.
pub uninterp spec fn url_parse(raw: Seq<char>) -> Result<Seq<char>, Seq<char>>;

/// The path (`Url::path`) of the URL that `url::Url::parse` gives for `raw`.
pub uninterp spec fn url_path(raw: Seq<char>) -> Seq<char>;

/// What `Url::join` gives for `input` against the URL parsed from `base`:
/// the joined URL's serialization, or the text of the `ParseError` of
/// whichever step refuses.
pub uninterp spec fn url_join(base: Seq<char>, input: Seq<char>) -> Result<Seq<char>, Seq<char>>;

/// A result of strings read as sequences of characters.
pub open spec fn text_result(r: Result<String, String>) -> Result<Seq<char>, Seq<char>> {
    match r {
        Ok(s) => Ok(s@),
        Err(e) => Err(e@),
    }
}

/// Parses `raw` with `url::Url::parse`, handing back the URL's
/// serialization and its path, or the parse error's text. The contract
/// claims only that these are what the crate gives for this text; the URL
/// grammar is left unsaid.
#[verifier::external_body]
fn parse_url(raw: &str) -> (r: Result<(String, String), String>)
    ensures
        match url_parse(raw@) {
            Err(e) => r matches Err(m) && m@ == e,
            Ok(s) => r matches Ok(p) && p.0@ == s && p.1@ == url_path(raw@),
        },
{
    match url::Url::parse(raw) {
        Ok(u) => Ok((u.as_str().to_owned(), u.path().to_owned())),
        Err(e) => Err(e.to_string()),
    }
}

/// Parses `base` with `url::Url::parse` and resolves `input` against it
/// with `Url::join`, handing back the joined URL's serialization or the
/// parse error's text. The contract claims only that the result is what
/// the crate gives for these two texts. No `url` value crosses into the
/// library, so the parse of `base` is made again here rather than handed
/// over from `parse_url`.
#[verifier::external_body]
fn join_url(base: &str, input: &str) -> (r: Result<String, String>)
    ensures
        text_result(r) == url_join(base@, input@),
{
    match url::Url::parse(base) {
        Ok(u) => match u.join(input) {
            Ok(joined) => Ok(joined.as_str().to_owned()),
            Err(e) => Err(e.to_string()),
        },
        Err(e) => Err(e.to_string()),
    }
}

/// A path that names no resource: empty, or the root alone.
pub open spec fn pathless(path: Seq<char>) -> bool {
    path.len() == 0 || path == seq!['/']
}

/// The endpoint for a base URL, or the transport error's message (which
/// carries the `url` crate's parse error): a text that is no URL is
/// refused; a pathless URL gets `v1/systemone` joined; a URL with a path
/// is the complete endpoint, as it serializes.
pub open spec fn endpoint_of(base: Seq<char>) -> Result<Seq<char>, Seq<char>> {
    match url_parse(base) {
        Err(e) => Err("invalid base URL: "@ + e),
        Ok(serialized) => if pathless(url_path(base)) {
            match url_join(base, SYSTEMONE_PATH@) {
                Ok(joined) => Ok(joined),
                Err(e) => Err("invalid base URL join: "@ + e),
            }
        } else {
            Ok(serialized)
        },
    }
}

/// A result read as endpoint-or-transport-message; `None` for any other
/// error.
pub open spec fn transport_view(r: JevResult<String>) -> Option<Result<Seq<char>, Seq<char>>> {
    match r {
        Ok(s) => Some(Ok(s@)),
        Err(JevError::Transport(m)) => Some(Err(m@)),
        Err(_) => None,
    }
}

/// The endpoint a client posts to for the base URL `base`.
pub fn systemone_endpoint(base: &str) -> (r: JevResult<String>)
    ensures
        transport_view(r) == Some(endpoint_of(base@)),
{
    match parse_url(base) {
        Err(e) => Err(JevError::Transport(concat("invalid base URL: ", e.as_str()))),
        Ok((serialized, path)) => {
            let cs = chars_of(path.as_str());
            if cs.len() == 0 || (cs.len() == 1 && cs[0] == '/') {
                proof {
                    if cs@.len() == 1 {
                        assert(path@ =~= seq!['/']);
                    }
                }
                match join_url(base, SYSTEMONE_PATH) {
                    Ok(joined) => Ok(joined),
                    Err(e) => Err(JevError::Transport(concat("invalid base URL join: ", e.as_str()))),
                }
            } else {
                proof {
                    if path@ == seq!['/'] {
                        assert(cs@.len() == 1 && cs@[0] == '/');
                    }
                }
                Ok(serialized)
            }
        },
    }
}

/// The endpoint of the cloud service.
pub fn cloud_endpoint() -> (r: JevResult<String>)
    ensures
        transport_view(r) == Some(endpoint_of(DEFAULT_BASE_URL@)),
{
    systemone_endpoint(DEFAULT_BASE_URL)
}

/// The endpoint configured by the setting `var`, whose value is `raw`
/// when set: the cloud endpoint when unset; a value that is no URL is a
/// transport error naming the setting and the value; otherwise the
/// endpoint of that base URL.
pub open spec fn setting_endpoint(var: Seq<char>, raw: Option<Seq<char>>) -> Result<Seq<char>, Seq<char>> {
    match raw {
        None => endpoint_of(DEFAULT_BASE_URL@),
        Some(value) => match url_parse(value) {
            Err(_) => Err("invalid "@ + var + ": "@ + value),
            Ok(_) => endpoint_of(value),
        },
    }
}

/// Resolves the endpoint from the setting `var` and its value, if set.
pub fn base_url_setting(var: &str, raw: Option<String>) -> (r: JevResult<String>)
    ensures
        transport_view(r) == Some(setting_endpoint(var@, opt_view(raw))),
{
    match raw {
        None => cloud_endpoint(),
        Some(value) => match parse_url(value.as_str()) {
            Err(_) => Err(JevError::Transport(concat3(concat("invalid ", var).as_str(), ": ", value.as_str()))),
            Ok(_) => systemone_endpoint(value.as_str()),
        },
    }
}

/// The API key to send: the configured value with surrounding whitespace
/// trimmed, and none at all when nothing is left.
pub open spec fn normalized_key(raw: Option<Seq<char>>) -> Option<Seq<char>> {
    match raw {
        None => None,
        Some(s) => if trimmed(s).len() == 0 {
            None
        } else {
            Some(trimmed(s))
        },
    }
}

/// Normalizes a configured API key: padded keys are trimmed and a blank
/// key is no key, so it never becomes a bearer token.
pub fn normalize_api_key(raw: Option<String>) -> (r: Option<String>)
    ensures
        opt_view(r) == normalized_key(opt_view(raw)),
{
    match raw {
        None => None,
        Some(value) => {
            let t = trim(value.as_str());
            if chars_of(t.as_str()).len() == 0 {
                None
            } else {
                Some(t)
            }
        },
    }
}

} // verus!
