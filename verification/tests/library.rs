//! Concrete cases of the library's laws, formulas, error variants and
//! outside calls.

use jev_driver::answer::{
    check_answer, check_choice_decision, check_response, score_decision_levels, AnswerDigest, AnswerKind,
    ResponseFault, Usage,
};
use jev_driver::attrs::{
    container_rename_all, jev_string_attrs, required, resolve_fields, Attr, AttrFault, FieldInfo, Meta, MetaValue, NestedMeta,
};
use jev_driver::client::{classify_status, AttemptResult, RetryState, RetryStep, StatusOutcome, DEFAULT_MODEL};
use jev_driver::derive_rules::{check_choice, check_instruction_refs, check_noul_poles, check_score, DeriveFault, VariantInfo};
use jev_driver::keyed::KeyedMap;
use jev_driver::naming::{
    backtick_refs, capitalize, capitalize_ascii, classed_chunk_words, snake_case_of, CasedChar, ClassedChar, field_key, serialized_keys, split_words, to_snake_case, underscore_words, FieldAttrs, FieldKey, KeyOutcome, RenameRule};
use jev_driver::question::{compose_questions, score_editor_levels, ChoiceOptions, Decision, DynChoice, QuestionKind, QuestionType, ScoreLevels};
use jev_driver::refs::root_segment;
use jev_driver::text::{decimal_string, is_blank, parse_unsigned_str};
use jev_driver::triage::{
    route, tenant, ticket_state_keys, Department, Frustration, FrustrationCriteria, IsUrgent, SamePersonQ,
};
use jev_driver::wire::{DataValue, Instructions, WireQuestion, WireUsage};
use jev_driver::JevError;

fn variant(ident: &str, option: Option<&str>, criteria: Option<&str>) -> VariantInfo {
    VariantInfo {
        ident: ident.to_owned(),
        unit: true,
        option: option.map(str::to_owned),
        criteria: criteria.map(str::to_owned),
    }
}

fn plain_attrs() -> FieldAttrs {
    FieldAttrs { rename: None, rename_unreadable: false, skipped: false, flattened: false, malformed: false }
}

#[test]
fn keyed_map_reads_back_what_was_written() {
    let mut m: KeyedMap<u32> = KeyedMap::new();
    assert!(m.is_empty());
    assert_eq!(m.insert("b".to_owned(), 1), None);
    assert_eq!(m.insert("a".to_owned(), 2), None);
    assert_eq!(m.insert("b".to_owned(), 3), Some(1), "a rewrite hands back the value it replaced");
    assert_eq!(m.get("b"), Some(&3), "a read gives back the last write");
    assert_eq!(m.get("a"), Some(&2), "other keys keep their values");
    assert_eq!(m.get("c"), None);
    assert_eq!(m.len(), 2);
    let keys: Vec<&str> = m.entries().iter().map(|(k, _)| k.as_str()).collect();
    assert_eq!(keys, vec!["a", "b"], "entries stay in key order");
    assert_eq!(m.remove("a"), Some(2));
    assert!(!m.contains_key("a"));
    assert_eq!(m.into_entries(), vec![("b".to_owned(), 3)]);
}

#[test]
fn rename_rules_parse_only_serde_names() {
    assert_eq!(RenameRule::parse("camelCase"), Some(RenameRule::CamelCase));
    assert_eq!(RenameRule::parse("SCREAMING-KEBAB-CASE"), Some(RenameRule::ScreamingKebabCase));
    assert_eq!(RenameRule::parse("Camelcase"), None, "rule names are exact");
    assert_eq!(RenameRule::CamelCase.apply("_leading_under"), "leadingUnder");
    assert_eq!(RenameRule::PascalCase.apply("a__b"), "AB");
    assert_eq!(RenameRule::KebabCase.apply("a_b_c"), "a-b-c");
}

#[test]
fn snake_case_of_variant_names() {
    assert_eq!(to_snake_case("NeedsReview"), "needs_review");
    let cased = |c: char, upper: bool, lower: &str| CasedChar { c, upper, lower: lower.chars().collect() };
    let given = vec![cased('İ', true, "i\u{307}"), cased('x', false, "x"), cased('Y', true, "y")];
    assert_eq!(snake_case_of(&given), "i\u{307}x_y", "case facts are taken as given, multi-char lowercase forms included");
    assert_eq!(to_snake_case("İx"), "i\u{307}x");
    assert_eq!(to_snake_case("Billing"), "billing");
    assert_eq!(to_snake_case("HTTPError"), "h_t_t_p_error");
    assert_eq!(to_snake_case("Ærø"), "ærø", "non-ASCII capitals lowercase through std's tables");
}

#[test]
fn backtick_tokens_and_roots() {
    assert_eq!(backtick_refs("a `x` b `` c `y.z` d `open"), vec!["x".to_owned(), "y.z".to_owned(), "open".to_owned()]);
    assert_eq!(backtick_refs("no references"), Vec::<String>::new());
    assert_eq!(root_segment("ticket.text"), "ticket");
    assert_eq!(root_segment("items[0].name"), "items");
    assert_eq!(root_segment("plain"), "plain");
    assert_eq!(root_segment(".lead"), "");
}

#[test]
fn field_matches_either_spelling() {
    let key = field_key("ticket_text".to_owned(), &plain_attrs(), RenameRule::parse("camelCase"));
    assert!(key.matches("ticket_text"));
    assert!(key.matches("ticketText"));
    assert!(!key.matches("ticket"));
    let skipped = FieldKey { ident: "internal".to_owned(), outcome: KeyOutcome::NeverSerialized };
    assert!(skipped.matches("internal"));
    let malformed = FieldAttrs { malformed: true, ..plain_attrs() };
    assert_eq!(field_key("x".to_owned(), &malformed, None).outcome, KeyOutcome::Opaque);
}

#[test]
fn decimal_text_and_unsigned_parsing() {
    assert_eq!(decimal_string(0), "0");
    assert_eq!(decimal_string(255), "255");
    assert_eq!(parse_unsigned_str("42", 255), Some(42));
    assert_eq!(parse_unsigned_str("+7", 255), Some(7), "a leading plus parses as std does");
    assert_eq!(parse_unsigned_str("256", 255), None, "out of range");
    assert_eq!(parse_unsigned_str("", 255), None);
    assert_eq!(parse_unsigned_str("1a", 255), None);
    assert!(is_blank(" \t\u{3000}\n"), "std's whitespace includes ideographic space");
    assert!(!is_blank(" x "));
}

#[test]
fn status_classification() {
    assert_eq!(classify_status(200, String::new()), StatusOutcome::Success);
    assert_eq!(classify_status(401, String::new()), StatusOutcome::Rejected(JevError::Unauthorized));
    assert_eq!(
        classify_status(422, "bad shape".to_owned()),
        StatusOutcome::Rejected(JevError::InvalidRequest("bad shape".to_owned()))
    );
    assert_eq!(classify_status(429, String::new()), StatusOutcome::Rejected(JevError::RateLimited { retries: 0 }));
    assert_eq!(classify_status(529, String::new()), StatusOutcome::Rejected(JevError::Overloaded { retries: 0 }));
    assert_eq!(classify_status(500, "boom".to_owned()), StatusOutcome::Unexpected);
    assert_eq!(DEFAULT_MODEL, "jev-1.13.0");
}

#[test]
fn rate_limits_back_off_until_an_answer() {
    let mut state = RetryState::new(3);
    assert_eq!(state.step(AttemptResult::RateLimited), RetryStep::Backoff { delay_for: 0 });
    assert_eq!(state.step(AttemptResult::Overloaded), RetryStep::Backoff { delay_for: 1 });
    assert_eq!(state.step(AttemptResult::Answered), RetryStep::Finish, "third attempt wins");
    assert_eq!(state.attempt, 2);
}

#[test]
fn exhausted_retries_report_the_budget() {
    let mut state = RetryState::new(2);
    let mut attempts = 0;
    let outcome = loop {
        attempts += 1;
        match state.step(AttemptResult::RateLimited) {
            RetryStep::Backoff { .. } => continue,
            other => break other,
        }
    };
    assert_eq!(outcome, RetryStep::GiveUp(JevError::RateLimited { retries: 2 }));
    assert_eq!(attempts, 3, "initial attempt plus two retries");
}

#[test]
fn terminal_errors_are_not_retried() {
    let mut state = RetryState::new(5);
    assert_eq!(state.step(AttemptResult::Failed), RetryStep::Surface);
    assert_eq!(state.attempt, 0, "no retries burned on terminal errors");
}

#[test]
fn every_answer_fault_variant() {
    let mut criteria = KeyedMap::new();
    criteria.insert("a".to_owned(), None);
    let choice_q = WireQuestion::Choice { instructions: Instructions::text("pick"), criteria };
    let noul_q = WireQuestion::Noul { instructions: Instructions::text("yes?"), criteria: None };
    let id = "q".to_owned();
    let probs = |v: bool| {
        let mut p = KeyedMap::new();
        p.insert("a".to_owned(), v);
        p
    };
    let choice = |normalized: bool, in_range: bool, confident: bool| AnswerDigest::Choice {
        choice: "a".to_owned(),
        probabilities: probs(in_range),
        normalized,
        confidence_in_range: confident,
    };
    assert_eq!(check_answer(&id, &choice_q, &choice(true, true, true)), Ok(()));
    assert_eq!(check_answer(&id, &choice_q, &choice(false, true, true)), Err(ResponseFault::NotNormalized { id: id.clone() }));
    assert_eq!(
        check_answer(&id, &choice_q, &choice(true, false, true)),
        Err(ResponseFault::ProbabilityOutOfRange { id: id.clone(), key: "a".to_owned() })
    );
    assert_eq!(
        check_answer(&id, &choice_q, &choice(true, true, false)),
        Err(ResponseFault::ConfidenceOutOfRange { id: id.clone() })
    );
    assert_eq!(
        check_answer(&id, &noul_q, &AnswerDigest::Noul { in_range: false }),
        Err(ResponseFault::NoulOutOfRange { id: id.clone() })
    );
    assert_eq!(
        check_answer(&id, &noul_q, &choice(true, true, true)),
        Err(ResponseFault::Rejected(JevError::AnswerTypeMismatch { id: id.clone(), expected: "noul", got: "choice" }))
    );
    let mut questions = KeyedMap::new();
    questions.insert("q".to_owned(), noul_q);
    assert_eq!(
        check_response(&questions, &KeyedMap::new()),
        Err(ResponseFault::Rejected(JevError::MissingAnswer { id: "q".to_owned() }))
    );
    assert_eq!(AnswerDigest::Noul { in_range: true }.kind(), AnswerKind::Noul);
    assert_eq!(AnswerKind::Score.kind_str(), "score");
}

#[test]
fn typed_layers_read_keys_strictly() {
    let keys = vec!["billing".to_owned(), "other".to_owned(), "technical".to_owned()];
    let options = Department::options();
    assert_eq!(check_choice_decision("department", &keys, &options), Ok(()));
    let short = vec!["billing".to_owned(), "other".to_owned()];
    assert!(matches!(
        check_choice_decision("department", &short, &options),
        Err(JevError::MalformedAnswer { detail, .. }) if detail.contains("`technical`")
    ));
    let extra = vec!["billing".to_owned(), "sales".to_owned()];
    assert_eq!(
        check_choice_decision("department", &extra, &options),
        Err(JevError::UnknownOption { option: "sales".to_owned(), id: "department".to_owned() })
    );
    let levels = vec!["0".to_owned(), "1".to_owned(), "2".to_owned()];
    assert_eq!(score_decision_levels("frustration", &levels, Frustration::LEVELS), Ok(vec![0, 1, 2]));
    let aliasing = vec!["0".to_owned(), "00".to_owned(), "1".to_owned()];
    assert!(matches!(
        score_decision_levels("rate", &aliasing, 3),
        Err(JevError::MalformedAnswer { detail, .. }) if detail.contains("alias")
    ));
    assert_eq!(Frustration::from_level(2), Some(Frustration::Angry));
    assert_eq!(Frustration::from_level(3), None);
    assert_eq!(Frustration::ID, "frustration");
}

#[test]
fn department_keys_round_trip() {
    for d in [Department::Billing, Department::Technical, Department::Other] {
        assert_eq!(Department::from_option(d.option_name()), Ok(d));
    }
    assert_eq!(
        Department::from_option("sales"),
        Err(JevError::UnknownOption { option: "sales".to_owned(), id: "department".to_owned() })
    );
}

#[test]
fn routing_is_confidence_gated() {
    assert_eq!(route(Department::Billing, true), "billing lane (auto)");
    assert_eq!(route(Department::Technical, true), "technical lane (auto)");
    assert_eq!(route(Department::Billing, false), "human review (low confidence)");
    assert_eq!(route(Department::Other, true), "human review (low confidence)");
}

#[test]
fn triage_questions_compose() {
    assert!(matches!(Department::compose_wire(None), Err(JevError::MissingCriteria { id }) if id == "department"));
    let urgent = IsUrgent::compose_wire(None).expect("static noul");
    assert_eq!(urgent.kind_str(), "noul");
    assert_eq!(urgent.instructions().question_text(), Some("Does this ticket convey time pressure?"));
    let rubric = Frustration::compose_wire(None).expect("static rubric");
    assert!(matches!(&rubric, WireQuestion::Score { criteria, .. } if criteria.len() == 3));
    let short = FrustrationCriteria(vec![Instructions::text("calm"), Instructions::text("angry")]);
    assert!(matches!(Frustration::compose_wire(Some(short)), Err(JevError::Schema(m)) if m.contains("needs 3")));
    let blank = FrustrationCriteria(vec![Instructions::text("a"), Instructions::text("  "), Instructions::text("c")]);
    assert!(matches!(Frustration::compose_wire(Some(blank)), Err(JevError::Schema(m)) if m.contains("level 1")));
    assert_eq!(Frustration::from_level(1), Some(Frustration::Concerned));
    assert_eq!((Department::question_id(), Department::KIND), ("department", QuestionKind::Choice));
    assert_eq!((IsUrgent::question_id(), IsUrgent::KIND), ("is_urgent", QuestionKind::Noul));
    assert_eq!((Frustration::question_id(), Frustration::KIND), ("frustration", QuestionKind::Score));
    let keys = ticket_state_keys();
    assert_eq!(keys, vec!["ticket", "sla_hours", "account_tier"]);
    assert_eq!(tenant().product, "Loom");
    assert!(SamePersonQ::QUESTION.contains("`candidate`"));
}

#[test]
fn score_editor_shape_is_checked() {
    let two = vec![Instructions::text("low"), Instructions::text("high")];
    assert_eq!(score_editor_levels("rate", 2, &two), Ok(()));
    assert_eq!(
        score_editor_levels("rate", 3, &two),
        Err(JevError::Schema("score `rate` needs 3 rubric levels in its criteria editor, got 2".to_owned()))
    );
}

#[test]
fn builders_and_decisions() {
    let built = DynChoice::new("owner", Instructions::text("Who?")).option_null("dana").build().expect("one option");
    assert_eq!(built.id, "owner");
    let blank_id = DynChoice::new("  ", Instructions::text("Who?")).option_null("x").build();
    assert_eq!(blank_id.unwrap_err(), JevError::Schema("dynamic choice id must be non-empty".to_owned()));
    let state = serde_json::Value::from("s");
    let decision = Decision::builder().state(state.clone()).with_question(built.clone()).expect("new id").build().expect("state and a question");
    assert_eq!(decision.state(), &state);
    assert_eq!(decision.questions().len(), 1);
    assert!(matches!(decision.clone().with_question(built), Err(JevError::Schema(m)) if m.contains("`owner`")));
    let empty = Decision::builder().state(state).build();
    assert_eq!(empty.unwrap_err(), JevError::Schema("a decision must carry at least one question".to_owned()));
    let noul = |t: &str| WireQuestion::Noul { instructions: Instructions::text(t), criteria: None };
    let composed = compose_questions(vec![("b".to_owned(), Ok(noul("x"))), ("a".to_owned(), Ok(noul("y")))], None)
        .expect("distinct ids");
    assert_eq!(composed.entries().iter().map(|(k, _)| k.as_str()).collect::<Vec<_>>(), vec!["a", "b"]);
    let failed = compose_questions(
        vec![("a".to_owned(), Err(JevError::MissingCriteria { id: "a".to_owned() })), ("a".to_owned(), Ok(noul("y")))],
        None,
    );
    assert_eq!(failed.unwrap_err(), JevError::MissingCriteria { id: "a".to_owned() }, "the first failure wins");
}

#[test]
fn structured_instructions_refuse_a_question_field() {
    let data = vec![("question".to_owned(), DataValue::Text("x".to_owned()))];
    assert!(matches!(Instructions::from_question("q", Some(data)), Err(JevError::Schema(m)) if m.contains("collides")));
    let later_wins = vec![
        ("k".to_owned(), DataValue::Text("first".to_owned())),
        ("k".to_owned(), DataValue::Text("second".to_owned())),
    ];
    let Ok(Instructions::Structured(map)) = Instructions::from_question("q", Some(later_wins)) else {
        panic!("object data gives the structured form");
    };
    assert_eq!(map.get("k"), Some(&DataValue::Text("second".to_owned())));
    assert!(!Instructions::text(" ").is_non_empty());
    assert!(Instructions::Parts(vec![serde_json::Value::Null]).is_non_empty());
}

#[test]
fn usage_carries_token_counts() {
    let usage = Usage::from_wire(WireUsage { input_tokens: 10, output_tokens: 2 });
    assert_eq!((usage.input_tokens, usage.output_tokens), (10, 2));
}

#[test]
fn derive_rules_for_choices_scores_and_poles() {
    let variants = vec![variant("Billing", None, None), variant("NeedsReview", None, None), variant("Other", Some("misc"), None)];
    let keys = check_choice(&variants).expect("valid choice");
    let names: Vec<&str> = keys.iter().map(|(k, _)| k.as_str()).collect();
    assert_eq!(names, vec!["billing", "needs_review", "misc"]);
    let clash = vec![variant("Billing", None, None), variant("Other", Some("billing"), None)];
    assert_eq!(check_choice(&clash), Err(DeriveFault::DuplicateOptionKey { key: "billing".to_owned() }));
    assert_eq!(check_choice(&Vec::new()), Err(DeriveFault::NoVariants));
    let mixed = vec![variant("A", None, Some("a")), variant("B", None, None)];
    assert_eq!(check_choice(&mixed), Err(DeriveFault::MixedCriteria));

    let rubric = vec![variant("Low", None, Some("low")), variant("High", None, Some("high"))];
    assert_eq!(check_score(&rubric), Ok((2, vec![Some("low".to_owned()), Some("high".to_owned())])));
    assert_eq!(check_score(&vec![variant("Only", None, None)]), Err(DeriveFault::LevelCount { found: 1 }));
    let mut fields = variant("Tuple", None, None);
    fields.unit = false;
    assert_eq!(check_score(&vec![fields]), Err(DeriveFault::NonUnitVariant { ident: "Tuple".to_owned() }));

    assert_eq!(check_noul_poles(true, true), Ok(()));
    assert_eq!(check_noul_poles(false, false), Ok(()));
    assert_eq!(check_noul_poles(true, false), Err(DeriveFault::OnePole));
}

#[test]
fn choice_instructions_may_name_state_fields() {
    let variants = vec![variant("Billing", None, None), variant("Technical", None, None), variant("Other", Some("other"), None)];
    let options = check_choice(&variants).expect("state references are left to composition");
    let mut criteria = KeyedMap::new();
    for (key, _) in options {
        criteria.insert(key, None);
    }
    let question = WireQuestion::Choice { instructions: Instructions::text("Which team should handle `ticket`?"), criteria };
    let parts = vec![("department".to_owned(), Ok(question))];
    let composed = compose_questions(parts.clone(), Some(&["ticket", "sla_hours"])).expect("`ticket` is a state root");
    assert_eq!(composed.len(), 1);
    assert_eq!(
        compose_questions(parts, Some(&["sla_hours"])).unwrap_err(),
        JevError::DanglingStateRef { question: "department".to_owned(), reference: "ticket".to_owned() }
    );
}

#[test]
fn question_contract_references_are_checked() {
    let fields = vec![
        field_key("candidate".to_owned(), &plain_attrs(), None),
        field_key("internal".to_owned(), &FieldAttrs { skipped: true, ..plain_attrs() }, None),
    ];
    assert_eq!(check_instruction_refs("Same as `candidate`?", &fields), Ok(()));
    assert!(check_instruction_refs("Same as `candidate.name`?", &fields).is_err(), "tokens are whole serialized keys");
    assert!(check_instruction_refs("Is `internal` set?", &fields).is_err());
    assert!(check_instruction_refs("Is `missing` set?", &fields).is_err());
}

fn word(name: &str) -> Meta {
    Meta::Word(Some(name.to_owned()))
}

fn value(name: &str, text: &str) -> Meta {
    Meta::Value(Some(name.to_owned()), MetaValue::Str(text.to_owned()))
}

fn serde(items: Vec<Meta>) -> Attr {
    Attr { path: Some("serde".to_owned()), items, complete: true }
}

#[test]
fn serde_attributes_decide_field_keys() {
    let container = vec![serde(vec![value("rename_all", "camelCase"), value("bound", "")])];
    assert_eq!(container_rename_all(&container), Some(RenameRule::CamelCase), "sibling valued metas keep the rule");
    let split = vec![serde(vec![Meta::List(
        Some("rename_all".to_owned()),
        vec![
            NestedMeta::Value(Some("serialize".to_owned()), MetaValue::Str("kebab-case".to_owned())),
            NestedMeta::Value(Some("deserialize".to_owned()), MetaValue::Str("camelCase".to_owned())),
        ],
        true,
    )])];
    assert_eq!(container_rename_all(&split), Some(RenameRule::KebabCase), "the serialize side decides");
    let listed = vec![serde(vec![value("rename_all", "camelCase"), Meta::List(Some("bound".to_owned()), vec![], true)])];
    assert_eq!(container_rename_all(&listed), None, "an unread list stops the parse");

    let fields = vec![
        FieldInfo { ident: Some("ticket_text".to_owned()), attrs: vec![] },
        FieldInfo { ident: Some("internal".to_owned()), attrs: vec![serde(vec![value("rename", "hidden"), word("skip")])] },
        FieldInfo { ident: Some("sla_hours".to_owned()), attrs: vec![serde(vec![value("rename", "sla")])] },
        FieldInfo { ident: None, attrs: vec![] },
        FieldInfo {
            ident: Some("maybe".to_owned()),
            attrs: vec![serde(vec![value("skip_serializing_if", "Option::is_none")])],
        },
    ];
    let keys = resolve_fields(&container, &fields);
    assert_eq!(keys.len(), 4, "tuple fields are left out");
    assert_eq!(serialized_keys(&keys), Some(vec!["ticketText".to_owned(), "sla".to_owned(), "maybe".to_owned()]));
    let flattened = vec![FieldInfo { ident: Some("extra".to_owned()), attrs: vec![serde(vec![word("flatten")])] }];
    assert_eq!(serialized_keys(&resolve_fields(&vec![], &flattened)), None, "flatten makes the key set unknowable");
    let odd = FieldInfo {
        ident: Some("x".to_owned()),
        attrs: vec![serde(vec![Meta::Value(Some("rename".to_owned()), MetaValue::Other(None))])],
    };
    assert_eq!(resolve_fields(&vec![], &vec![odd])[0].outcome, KeyOutcome::Opaque, "an unparsed attribute is opaque");
}

#[test]
fn jev_settings_are_read_strictly() {
    let jev = |items: Vec<Meta>| Attr { path: Some("jev".to_owned()), items, complete: true };
    let attrs = vec![
        jev(vec![value("id", "department"), Meta::Value(Some("state".to_owned()), MetaValue::Path("TicketState".to_owned()))]),
        serde(vec![word("anything")]),
        jev(vec![value("id", "dept")]),
    ];
    let settings = jev_string_attrs(&attrs).expect("well-formed settings");
    assert_eq!(settings.get("id"), Some(&"dept".to_owned()), "a later setting wins");
    assert_eq!(required(&settings, "state", "JevQuestions"), Ok("TicketState".to_owned()));
    assert_eq!(
        required(&settings, "instructions", "JevChoice"),
        Err(AttrFault::Missing { derive: "JevChoice".to_owned(), key: "instructions".to_owned() })
    );
    assert_eq!(jev_string_attrs(&vec![jev(vec![word("id")])]).unwrap_err(), AttrFault::MissingValue { key: "id".to_owned() });
    assert_eq!(jev_string_attrs(&vec![jev(vec![Meta::Word(None)])]).unwrap_err(), AttrFault::CompoundKey);
    let bad = Meta::Value(Some("id".to_owned()), MetaValue::Other(None));
    assert_eq!(jev_string_attrs(&vec![jev(vec![bad])]).unwrap_err(), AttrFault::BadValue { key: "id".to_owned() });
    let broken = Attr { path: Some("jev".to_owned()), items: vec![], complete: false };
    assert_eq!(jev_string_attrs(&vec![broken]).unwrap_err(), AttrFault::Syntax);
}

#[test]
fn pascal_case_capitalizes_underscore_words() {
    assert_eq!(underscore_words("ticket_text"), vec!["ticket".to_owned(), "text".to_owned()]);
    assert_eq!(underscore_words("xmlHttpRequest"), vec!["xmlHttpRequest".to_owned()], "no split on case boundaries");
    assert_eq!(underscore_words("_a__b"), vec!["".to_owned(), "a".to_owned(), "".to_owned(), "b".to_owned()]);
    assert_eq!(capitalize_ascii("http"), "Http");
    assert_eq!(capitalize_ascii(""), "");
    assert_eq!(capitalize_ascii("élan"), "élan", "only ASCII letters are uppercased");
    let joined: String = underscore_words("http_url").iter().map(|w| capitalize_ascii(w)).collect();
    assert_eq!(joined, RenameRule::PascalCase.apply("http_url"));
}

#[test]
fn identifier_words_split_on_separators_and_case() {
    assert_eq!(split_words("XMLHttp"), vec!["XML".to_owned(), "Http".to_owned()]);
    assert_eq!(split_words("ticket_text"), vec!["ticket".to_owned(), "text".to_owned()]);
    assert_eq!(split_words("http-url"), vec!["http".to_owned(), "url".to_owned()]);
    assert_eq!(split_words("isUrgent2Fast"), vec!["is".to_owned(), "Urgent2".to_owned(), "Fast".to_owned()]);
    assert_eq!(split_words("_a__b"), vec!["a".to_owned(), "b".to_owned()]);
    assert_eq!(split_words(""), Vec::<String>::new());
    let classed = |text: &str| -> Vec<ClassedChar> {
        text.chars()
            .map(|c| ClassedChar { c, upper: c.is_uppercase(), lower: c.is_lowercase(), numeric: c.is_numeric() })
            .collect()
    };
    assert_eq!(classed_chunk_words(&classed("XMLHttp")), vec!["XML".to_owned(), "Http".to_owned()]);
    let mut digit_unclassed = classed("v2B");
    digit_unclassed[1].numeric = false;
    assert_eq!(classed_chunk_words(&digit_unclassed), vec!["v2B".to_owned()], "class facts are taken as given");
    assert_eq!(classed_chunk_words(&classed("v2B")), vec!["v2".to_owned(), "B".to_owned()]);
    assert_eq!(capitalize("élan"), "Élan");
    assert_eq!(capitalize("http"), "Http");
    assert_eq!(capitalize(""), "");
}

#[test]
fn wire_acceptance_implies_typed_acceptance() {
    let mut criteria = KeyedMap::new();
    for key in Department::options() {
        criteria.insert(key.to_owned(), None);
    }
    let question = WireQuestion::Choice { instructions: Instructions::text("Which team?"), criteria };
    let mut probabilities = KeyedMap::new();
    for key in ["billing", "other", "technical"] {
        probabilities.insert(key.to_owned(), true);
    }
    let answer = AnswerDigest::Choice {
        choice: "technical".to_owned(),
        probabilities,
        normalized: true,
        confidence_in_range: true,
    };
    assert_eq!(check_answer(&"department".to_owned(), &question, &answer), Ok(()));
    let AnswerDigest::Choice { probabilities, .. } = &answer else { unreachable!() };
    let keys: Vec<String> = probabilities.entries().iter().map(|(k, _)| k.clone()).collect();
    assert_eq!(check_choice_decision("department", &keys, &Department::options()), Ok(()));

    for level in 0..=255u8 {
        match Frustration::from_level(level) {
            Some(f) => assert_eq!(Frustration::from_level(f as u8), Some(f), "levels and variants correspond"),
            None => assert!(level >= Frustration::LEVELS),
        }
    }
}
