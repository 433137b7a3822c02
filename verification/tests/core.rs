//! Core-library scenarios: instruction payloads, answer validation,
//! composition, state keys and reference checking.

use jev_driver::answer::{check_response, AnswerDigest, ResponseFault};
use jev_driver::attrs::{resolve_fields, Attr, FieldInfo, Meta, MetaValue, NestedMeta};
use jev_driver::keyed::KeyedMap;
use jev_driver::naming::serialized_keys;
use jev_driver::question::compose_questions;
use jev_driver::refs::validate_state_refs;
use jev_driver::wire::{DataValue, Instructions, WireQuestion};
use jev_driver::JevError;

fn flags(entries: &[(&str, bool)]) -> KeyedMap<bool> {
    let mut m = KeyedMap::new();
    for (k, v) in entries {
        m.insert((*k).to_owned(), *v);
    }
    m
}

fn legend(entries: &[(&str, &str)]) -> KeyedMap<String> {
    let mut m = KeyedMap::new();
    for (k, v) in entries {
        m.insert((*k).to_owned(), (*v).to_owned());
    }
    m
}

fn one_question(id: &str, q: WireQuestion) -> KeyedMap<WireQuestion> {
    let mut m = KeyedMap::new();
    m.insert(id.to_owned(), q);
    m
}

fn one_answer(id: &str, a: AnswerDigest) -> KeyedMap<AnswerDigest> {
    let mut m = KeyedMap::new();
    m.insert(id.to_owned(), a);
    m
}

fn rate_question() -> WireQuestion {
    WireQuestion::Score {
        instructions: Instructions::text("rate"),
        criteria: vec![Instructions::text("low"), Instructions::text("high")],
    }
}

fn kind_question() -> WireQuestion {
    let mut criteria = KeyedMap::new();
    criteria.insert("a".to_owned(), None);
    criteria.insert("b".to_owned(), None);
    WireQuestion::Choice { instructions: Instructions::text("which kind"), criteria }
}

fn noul(text: &str) -> WireQuestion {
    WireQuestion::Noul { instructions: Instructions::text(text), criteria: None }
}

fn word(name: &str) -> Meta {
    Meta::Word(Some(name.to_owned()))
}

fn value(name: &str, text: &str) -> Meta {
    Meta::Value(Some(name.to_owned()), MetaValue::Str(text.to_owned()))
}

fn serde(items: Vec<Meta>) -> Attr {
    Attr { path: Some("serde".to_owned()), items, complete: true }
}

fn field(ident: &str, attrs: Vec<Attr>) -> FieldInfo {
    FieldInfo { ident: Some(ident.to_owned()), attrs }
}

/// The state keys of a struct with these container and field attributes.
fn state_keys(container: Vec<Attr>, fields: Vec<FieldInfo>) -> Option<Vec<String>> {
    serialized_keys(&resolve_fields(&container, &fields))
}

#[test]
fn from_question_embeds_data_and_rejects_non_maps() {
    let data = vec![("who".to_owned(), DataValue::Text("ada".to_owned()))];
    let instructions = Instructions::from_question("Same as `who`?", Some(data)).expect("data is an object");
    let Instructions::Structured(map) = &instructions else {
        panic!("from_question must produce the structured form");
    };
    assert_eq!(
        map.get("question"),
        Some(&DataValue::Text("Same as `who`?".to_owned())),
        "question text is embedded"
    );
    assert_eq!(map.get("who"), Some(&DataValue::Text("ada".to_owned())), "data fields ride along");

    let rejected = Instructions::from_question("q", None);
    assert!(matches!(rejected, Err(JevError::Schema(_))), "non-map payloads must be rejected");
}

#[test]
fn missing_zero_probability_entry_is_rejected() {
    let questions = one_question("kind", kind_question());
    let answers = one_answer(
        "kind",
        AnswerDigest::Choice {
            choice: "a".to_owned(),
            probabilities: flags(&[("a", true)]),
            normalized: true,
            confidence_in_range: true,
        },
    );
    let err = check_response(&questions, &answers)
        .expect_err("omitting a zero-probability option must fail even though the sum is 1");
    match err {
        ResponseFault::Rejected(JevError::MalformedAnswer { id, detail }) => {
            assert_eq!(id, "kind", "error names the question");
            assert!(detail.contains("`b`"), "error names the missing option: {detail}");
        }
        other => panic!("expected MalformedAnswer, got {other:?}"),
    }
}

#[test]
fn missing_zero_probability_level_is_rejected() {
    let questions = one_question("rate", rate_question());
    let answers = one_answer(
        "rate",
        AnswerDigest::Score {
            legend: legend(&[("0", "low")]),
            probabilities: flags(&[("0", true)]),
            score_ceiling: Some(0),
            normalized: true,
            confidence_in_range: true,
        },
    );
    let err = check_response(&questions, &answers)
        .expect_err("omitting a zero-probability rubric level must fail even though the sum is 1");
    match err {
        ResponseFault::Rejected(JevError::MalformedAnswer { id, detail }) => {
            assert_eq!(id, "rate", "error names the question");
            assert!(detail.contains("level 1"), "error names the missing level: {detail}");
        }
        other => panic!("expected MalformedAnswer, got {other:?}"),
    }
}

#[test]
fn out_of_range_score_is_rejected() {
    let questions = one_question("rate", rate_question());
    let answers = one_answer(
        "rate",
        AnswerDigest::Score {
            legend: legend(&[("0", "low"), ("1", "high")]),
            probabilities: flags(&[("0", true), ("1", true)]),
            score_ceiling: Some(17),
            normalized: true,
            confidence_in_range: true,
        },
    );
    let err = check_response(&questions, &answers).expect_err("a score of 17 on a 2-level rubric must fail");
    assert!(
        matches!(&err, ResponseFault::ScoreOutOfRange { id, levels: 2 } if id == "rate"),
        "expected the score to be reported out of range, got {err:?}"
    );
}

#[test]
fn duplicate_question_ids_fail_at_compose() {
    let parts = vec![
        ("clash".to_owned(), Ok(noul("first"))),
        ("clash".to_owned(), Ok(noul("second"))),
    ];
    let err = compose_questions(parts, None).expect_err("two field types sharing a question id must fail at compose");
    match err {
        JevError::Schema(detail) => {
            assert!(detail.contains("clash"), "error names the duplicated id: {detail}");
        }
        other => panic!("expected Schema error, got {other:?}"),
    }
}

#[test]
fn aliasing_level_keys_are_rejected() {
    let questions = one_question("rate", rate_question());
    let answers = one_answer(
        "rate",
        AnswerDigest::Score {
            legend: legend(&[("0", "low"), ("00", "low"), ("1", "high")]),
            probabilities: flags(&[("0", true), ("00", true), ("1", true)]),
            score_ceiling: Some(1),
            normalized: true,
            confidence_in_range: true,
        },
    );
    let err = check_response(&questions, &answers)
        .expect_err("level keys aliasing the same level must fail even though the sum is 1");
    match err {
        ResponseFault::Rejected(JevError::MalformedAnswer { id, detail }) => {
            assert_eq!(id, "rate", "error names the question");
            assert!(detail.contains("non-canonical"), "error names the aliasing key: {detail}");
        }
        other => panic!("expected MalformedAnswer, got {other:?}"),
    }
}

#[test]
fn state_keys_resolve_serde_names() {
    let keys = state_keys(
        vec![serde(vec![value("rename_all", "camelCase")])],
        vec![
            field("ticket_text", vec![]),
            field("internal", vec![serde(vec![word("skip")])]),
            field("sla_hours", vec![serde(vec![value("rename", "sla")])]),
        ],
    );
    assert_eq!(
        keys,
        Some(vec!["ticketText".to_owned(), "sla".to_owned()]),
        "keys must be serde-resolved, declaration order, skips excluded"
    );
}

#[test]
fn compose_rejects_dangling_state_refs() {
    let parts = vec![("urgent".to_owned(), Ok(noul("Does `ticket` convey urgency?")))];
    let keys = state_keys(vec![], vec![field("message", vec![])]).expect("plain fields are static");
    let state_refs: Vec<&str> = keys.iter().map(String::as_str).collect();
    let err = compose_questions(parts, Some(&state_refs))
        .expect_err("a reference rooted at a missing key must fail composition");
    match err {
        JevError::DanglingStateRef { question, reference } => {
            assert_eq!(question, "urgent", "error names the question");
            assert_eq!(reference, "ticket", "error names the reference");
        }
        other => panic!("expected DanglingStateRef, got {other:?}"),
    }
}

#[test]
fn compose_accepts_serde_renamed_roots() {
    let parts = vec![("urgent".to_owned(), Ok(noul("Does `ticketText` convey urgency?")))];
    let keys =
        state_keys(vec![serde(vec![value("rename_all", "camelCase")])], vec![field("ticket_text", vec![])]).expect("plain fields are static");
    let state_refs: Vec<&str> = keys.iter().map(String::as_str).collect();
    let questions = compose_questions(parts, Some(&state_refs)).expect("renamed roots resolve");
    let question = questions.get("urgent").expect("question present");
    assert_eq!(
        question.instructions().question_text(),
        Some("Does `ticketText` convey urgency?"),
        "references ride the wire verbatim"
    );
}

#[test]
fn validate_state_refs_local_roots_and_exemptions() {
    let data = vec![("payload".to_owned(), DataValue::Other(serde_json::Value::from(1)))];
    let structured = Instructions::from_question("Pick `billing` for `payload`?", Some(data)).expect("object data");
    let mut criteria = KeyedMap::new();
    criteria.insert("billing".to_owned(), Some(Instructions::text("B")));
    let mut questions = KeyedMap::new();
    questions.insert("pick".to_owned(), WireQuestion::Choice { instructions: structured, criteria });
    assert!(
        validate_state_refs(&questions, Some(&["unrelated"])).is_ok(),
        "option-key and data-field roots must pass"
    );

    questions.insert("check".to_owned(), noul("Is `ghost` present?"));
    let err = validate_state_refs(&questions, Some(&["real"])).expect_err("a root matching no namespace must fail");
    match err {
        JevError::DanglingStateRef { question, reference } => {
            assert_eq!(question, "check", "error names the question");
            assert_eq!(reference, "ghost", "error names the reference");
        }
        other => panic!("expected DanglingStateRef, got {other:?}"),
    }

    assert!(validate_state_refs(&questions, None).is_ok(), "opaque state keys exempt the set");
    questions.insert(
        "parts".to_owned(),
        WireQuestion::Noul {
            instructions: Instructions::Parts(vec![serde_json::Value::from("no single question text")]),
            criteria: None,
        },
    );
    questions.remove("check");
    assert!(validate_state_refs(&questions, Some(&[])).is_ok(), "parts-form instructions carry no refs to check");

    questions.insert("idx".to_owned(), noul("Is `items[0]` fresh? Yes `` indeed"));
    assert!(validate_state_refs(&questions, Some(&["items"])).is_ok(), "indexed roots and empty pairs must pass");
}

#[test]
fn state_keys_match_serde_serialization_across_rules() {
    let idents = ["ticket_text", "http_url", "xmlHttpRequest", "XMLHttp"];
    let camel = ["ticketText", "httpUrl", "xmlHttpRequest", "xMLHttp"];
    let split_form = serde(vec![Meta::List(
        Some("rename_all".to_owned()),
        vec![
            NestedMeta::Value(Some("serialize".to_owned()), MetaValue::Str("camelCase".to_owned())),
            NestedMeta::Value(Some("deserialize".to_owned()), MetaValue::Str("kebab-case".to_owned())),
        ],
        true,
    )]);
    let expected: Vec<(Attr, [&str; 4])> = vec![
        (serde(vec![value("rename_all", "camelCase")]), camel),
        (serde(vec![value("rename_all", "snake_case")]), ["ticket_text", "http_url", "xmlHttpRequest", "XMLHttp"]),
        (serde(vec![value("rename_all", "SCREAMING_SNAKE_CASE")]), ["TICKET_TEXT", "HTTP_URL", "XMLHTTPREQUEST", "XMLHTTP"]),
        (serde(vec![value("rename_all", "kebab-case")]), ["ticket-text", "http-url", "xmlHttpRequest", "XMLHttp"]),
        (serde(vec![value("rename_all", "SCREAMING-KEBAB-CASE")]), ["TICKET-TEXT", "HTTP-URL", "XMLHTTPREQUEST", "XMLHTTP"]),
        (serde(vec![value("rename_all", "PascalCase")]), ["TicketText", "HttpUrl", "XmlHttpRequest", "XMLHttp"]),
        (serde(vec![value("rename_all", "lowercase")]), ["ticket_text", "http_url", "xmlHttpRequest", "XMLHttp"]),
        (serde(vec![value("rename_all", "UPPERCASE")]), ["TICKET_TEXT", "HTTP_URL", "XMLHTTPREQUEST", "XMLHTTP"]),
        (split_form, camel),
    ];
    for (container, keys) in expected {
        let fields: Vec<FieldInfo> = idents.iter().map(|i| field(i, vec![])).collect();
        let mut resolved = state_keys(vec![container.clone()], fields).expect("plain fields are static");
        let mut serde_keys: Vec<String> = keys.iter().map(|k| (*k).to_owned()).collect();
        resolved.sort_unstable();
        serde_keys.sort_unstable();
        assert_eq!(resolved, serde_keys, "STATE_KEYS must equal serde's emitted keys ({container:?})");
    }
}

#[test]
fn state_keys_skip_precedence_and_exemption_granularity() {
    assert_eq!(
        state_keys(vec![], vec![field("live", vec![]), field("internal", vec![serde(vec![value("rename", "hidden"), word("skip")])])]),
        Some(vec!["live".to_owned()]),
        "skip must win over rename"
    );

    assert_eq!(
        state_keys(
            vec![],
            vec![field("maybe", vec![serde(vec![value("skip_serializing_if", "Option::is_none")])]), field("live", vec![])],
        ),
        Some(vec!["maybe".to_owned(), "live".to_owned()]),
        "conditional presence must not exempt the struct"
    );

    assert_eq!(
        state_keys(vec![serde(vec![value("rename_all", "camelCase"), value("bound", "")])], vec![field("ticket_text", vec![])]),
        Some(vec!["ticketText".to_owned()]),
        "sibling valued metas must not swallow the rename rule"
    );

    assert_eq!(
        state_keys(vec![], vec![field("live", vec![]), field("extra", vec![serde(vec![word("flatten")])])]),
        None,
        "flatten must exempt the struct"
    );
}
