//! The ticket-triage question set end to end: composition, the demo
//! decision and strict validation of the answers it receives.

use jev_driver::answer::{check_response, AnswerDigest, ResponseFault};
use jev_driver::keyed::KeyedMap;
use jev_driver::question::{ChoiceOptions, Decision, DynChoice};
use jev_driver::triage::{tenant, Department, DepartmentCriteria, TicketTriage, TicketTriageCustomization};
use jev_driver::wire::Instructions;
use jev_driver::JevError;

fn demo_state() -> serde_json::Value {
    let mut map = serde_json::Map::new();
    map.insert(
        "ticket".to_owned(),
        serde_json::Value::from("I was charged twice and need the duplicate refunded today."),
    );
    map.insert("sla_hours".to_owned(), serde_json::Value::from(47.5));
    map.insert("account_tier".to_owned(), serde_json::Value::from("pro"));
    serde_json::Value::Object(map)
}

fn tenant_criteria() -> TicketTriageCustomization {
    let t = tenant();
    TicketTriageCustomization {
        department: Some(DepartmentCriteria {
            billing: Instructions::text(t.billing_desc),
            technical: Instructions::text(t.technical_desc),
            other: Instructions::text(t.other_desc),
        }),
        ..TicketTriageCustomization::empty()
    }
}

fn build_demo_decision() -> Result<Decision, JevError> {
    let owner = DynChoice::new("owner", Instructions::text("Is this application for the same person as `candidate`?"))
        .option("dana", Instructions::text("Payments specialist, 4 years tenure"))
        .option("kai", Instructions::text("Integrations specialist, 2 years tenure"))
        .build()?;
    TicketTriage::request().state(demo_state()).customize(tenant_criteria()).build()?.with_question(owner)
}

fn flags(keys: &[&str]) -> KeyedMap<bool> {
    let mut m = KeyedMap::new();
    for k in keys {
        m.insert((*k).to_owned(), true);
    }
    m
}

fn choice(selected: &str, keys: &[&str]) -> AnswerDigest {
    AnswerDigest::Choice {
        choice: selected.to_owned(),
        probabilities: flags(keys),
        normalized: true,
        confidence_in_range: true,
    }
}

fn fixture_answers() -> KeyedMap<AnswerDigest> {
    let mut legend = KeyedMap::new();
    legend.insert("0".to_owned(), "Calm and neutral".to_owned());
    legend.insert("1".to_owned(), "Concerned but civil".to_owned());
    legend.insert("2".to_owned(), "Very angry or strong language".to_owned());
    let mut answers = KeyedMap::new();
    answers.insert("department".to_owned(), choice("billing", &["billing", "technical", "other"]));
    answers.insert("is_urgent".to_owned(), AnswerDigest::Noul { in_range: true });
    answers.insert(
        "frustration".to_owned(),
        AnswerDigest::Score {
            legend,
            probabilities: flags(&["0", "1", "2"]),
            score_ceiling: Some(1),
            normalized: true,
            confidence_in_range: true,
        },
    );
    answers.insert("owner".to_owned(), choice("dana", &["dana", "kai"]));
    answers
}

#[test]
fn dynamic_and_typed_layers_agree() {
    let decision = build_demo_decision().expect("demo decision builds");
    let answers = fixture_answers();
    assert!(check_response(decision.questions(), &answers).is_ok(), "the fixture answers validate");

    let Some(AnswerDigest::Choice { choice: selected, .. }) = answers.get("department") else {
        panic!("department is a choice answer");
    };
    assert_eq!(selected, "billing", "dynamic layer sees the raw option key");
    let typed = Department::from_option(selected).expect("a declared option");
    assert_eq!(selected, typed.option_name(), "typed enum maps to the same wire key");

    let Some(AnswerDigest::Choice { choice: owner, .. }) = answers.get("owner") else {
        panic!("owner is a choice answer");
    };
    assert_eq!(owner, "dana", "dynamic DynChoice answer validates against its supplied option set");
}

#[test]
fn unknown_option_is_strictly_rejected() {
    let decision = build_demo_decision().expect("demo decision builds");
    let mut answers = fixture_answers();
    answers.insert("owner".to_owned(), choice("mallory", &["dana", "kai"]));
    let err = check_response(decision.questions(), &answers)
        .expect_err("an option outside the supplied set must be rejected");
    match err {
        ResponseFault::Rejected(JevError::UnknownOption { option, id }) => {
            assert_eq!(option, "mallory", "error names the offending option");
            assert_eq!(id, "owner", "error names the offending question");
        }
        other => panic!("expected UnknownOption, got {other:?}"),
    }
}

#[test]
fn unknown_answer_id_is_rejected() {
    let decision = build_demo_decision().expect("demo decision builds");
    let mut answers = fixture_answers();
    answers.insert("ghost".to_owned(), AnswerDigest::Noul { in_range: true });
    let err = check_response(decision.questions(), &answers)
        .expect_err("an answer for an unasked question must be rejected");
    match err {
        ResponseFault::Rejected(JevError::UnknownQuestion { id }) => {
            assert_eq!(id, "ghost", "error names the ghost question id")
        }
        other => panic!("expected UnknownQuestion, got {other:?}"),
    }
}

#[test]
fn runtime_criteria_must_be_supplied() {
    let err = TicketTriage::request()
        .state(demo_state())
        .build()
        .expect_err("department has runtime criteria; omitting customize() must fail loudly");
    match err {
        JevError::MissingCriteria { id } => assert_eq!(id, "department", "error names the unfilled question"),
        other => panic!("expected MissingCriteria, got {other:?}"),
    }
}

#[test]
fn state_is_required() {
    let err = TicketTriage::request()
        .customize(tenant_criteria())
        .build()
        .expect_err("building without state must fail");
    assert!(matches!(err, JevError::MissingState), "expected MissingState, got {err:?}");
}

#[test]
fn dyn_choice_builder_enforces_cardinality() {
    let empty = DynChoice::new("nobody", Instructions::text("Who?")).build();
    assert!(matches!(empty, Err(JevError::Schema(_))), "zero options must be a schema error, got {empty:?}");

    let mut builder = DynChoice::new("everyone", Instructions::text("Who?"));
    for i in 0..256 {
        builder = builder.option(&format!("opt_{i}"), Instructions::text("someone"));
    }
    let too_many = builder.build();
    assert!(matches!(too_many, Err(JevError::Schema(_))), "256 options must exceed the 255 cardinality cap");
}
