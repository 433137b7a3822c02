//! Endpoint resolution and API-key normalization.

use jev_driver::client::{RetryState, DEFAULT_MODEL};
use jev_driver::endpoint::{base_url_setting, cloud_endpoint, normalize_api_key, systemone_endpoint};
use jev_driver::text::trim;
use jev_driver::JevError;

#[test]
fn cloud_config_targets_the_full_default_endpoint() {
    assert_eq!(
        cloud_endpoint(),
        Ok("https://api.typesafe.ai/v1/systemone".to_owned()),
        "cloud() must pin the complete endpoint"
    );
    assert_eq!(normalize_api_key(None), None, "cloud() ships no key");
}

#[test]
fn pathless_base_urls_get_the_systemone_path_joined() {
    assert_eq!(
        systemone_endpoint("http://localhost:8080"),
        Ok("http://localhost:8080/v1/systemone".to_owned()),
        "a bare host is a base URL"
    );
    assert_eq!(
        systemone_endpoint("http://localhost:8080/"),
        Ok("http://localhost:8080/v1/systemone".to_owned()),
        "a lone slash is still a base URL"
    );
    assert_eq!(
        systemone_endpoint("https://api.typesafe.ai"),
        Ok("https://api.typesafe.ai/v1/systemone".to_owned()),
        "the old TYPESAFE_BASE_URL shape must resolve identically"
    );
}

#[test]
fn url_with_path_is_the_complete_endpoint() {
    assert_eq!(
        systemone_endpoint("http://localhost:9999/api/jev"),
        Ok("http://localhost:9999/api/jev".to_owned()),
        "a URL with a path must be used verbatim"
    );
}

#[test]
fn text_that_is_no_url_is_a_transport_error() {
    assert_eq!(
        systemone_endpoint("not a url"),
        Err(JevError::Transport("invalid base URL: relative URL without a base".to_owned())),
        "the message carries the url crate's parse error"
    );
    assert_eq!(
        systemone_endpoint("foo:"),
        Err(JevError::Transport("invalid base URL join: relative URL with a cannot-be-a-base base".to_owned())),
        "a failed join carries the url crate's join error"
    );
}

#[test]
fn from_env_named_defaults_when_no_variables_are_named() {
    assert_eq!(normalize_api_key(None), None, "no key variable means no key");
    assert_eq!(
        base_url_setting("", None),
        Ok("https://api.typesafe.ai/v1/systemone".to_owned()),
        "no URL variable means the cloud endpoint"
    );
    assert_eq!(DEFAULT_MODEL, "jev-1.13.0", "no model variable means default");
}

#[test]
fn from_env_named_reads_caller_named_variables() {
    assert_eq!(
        normalize_api_key(Some("local-token".to_owned())).as_deref(),
        Some("local-token"),
        "the caller-named key variable is read"
    );
    assert_eq!(
        base_url_setting("JEV_TEST_URL", Some("http://localhost:1234".to_owned())),
        Ok("http://localhost:1234/v1/systemone".to_owned()),
        "the caller-named URL variable is read and joined"
    );
}

#[test]
fn from_env_named_normalizes_keys() {
    assert!(normalize_api_key(Some("  ".to_owned())).is_none(), "a blank key must not become a bearer token");
    assert_eq!(
        normalize_api_key(Some(" local-token ".to_owned())).as_deref(),
        Some("local-token"),
        "padded keys are normalized, not sent verbatim"
    );
}

#[test]
fn from_env_named_names_the_offending_variable_on_a_bad_url() {
    match base_url_setting("JEV_TEST_BAD_URL", Some("not a url".to_owned())) {
        Err(JevError::Transport(m)) => {
            assert!(m.contains("JEV_TEST_BAD_URL"), "error must name the variable: {m}");
            assert_eq!(m, "invalid JEV_TEST_BAD_URL: not a url");
        }
        other => panic!("malformed URL must error, got {other:?}"),
    }
}

#[test]
fn trimming_strips_unicode_whitespace_at_both_ends() {
    assert_eq!(trim("\u{a0}\t key \n"), "key");
    assert_eq!(trim(" a b "), "a b");
    assert_eq!(trim("   "), "");
    assert_eq!(trim(""), "");
}

#[test]
fn cancellation_ends_the_retry_loop() {
    let state = RetryState::new(3);
    assert_eq!(state.proceed(true), Err(JevError::Cancelled));
    assert_eq!(state.proceed(false), Ok(()));
}

#[test]
fn whitespace_is_the_white_space_property() {
    for n in 0u32..=0x10ffff {
        if let Some(c) = char::from_u32(n) {
            assert_eq!(jev_driver::text::is_whitespace(c), c.is_whitespace(), "U+{n:04X}");
        }
    }
}
