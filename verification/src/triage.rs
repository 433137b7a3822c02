//! The ticket-triage question set: a choice with runtime criteria, a noul
//! with both poles described, and a score with a static rubric, composed
//! against a typed ticket state.

use vstd::prelude::*;

use crate::error::{ErrorView, JevError, JevResult};
use crate::keyed::{has_key, index_of_key, lemma_lookup_at, lookup, KeyedMap};
use crate::naming::{backtick_tokens, lemma_backtick_free};
use crate::question::{compose_questions, holds_parts, part_fails, score_editor_fault, score_editor_levels, ChoiceOptions, QuestionKind, QuestionSet, QuestionType, RequestBuilder, ScoreLevels};
use crate::refs::{lemma_no_refs_no_dangling, refs_in, validate_state_refs};
use crate::wire::instructions_of;
use crate::text::{owned, str_equal};
use crate::wire::{Instructions, NoulCriteria, WireQuestion};

verus! {

/// Which team handles a ticket. Its criteria are supplied per call.
#[derive(Clone, Copy, Debug, PartialEq, Eq, Structural)]
pub enum Department {
    Billing,
    Technical,
    Other,
}

/// The option key of a department.
pub open spec fn department_key(d: Department) -> Seq<char> {
    match d {
        Department::Billing => "billing"@,
        Department::Technical => "technical"@,
        Department::Other => "other"@,
    }
}

/// The department an option key names, if any.
pub open spec fn department_named(key: Seq<char>) -> Option<Department> {
    if key == "billing"@ {
        Some(Department::Billing)
    } else if key == "technical"@ {
        Some(Department::Technical)
    } else if key == "other"@ {
        Some(Department::Other)
    } else {
        None
    }
}

/// Option keys and departments correspond one to one: each department's
/// key names it, and a key that names a department is that department's
/// key. So parsing a department's option name gives the department back.
pub proof fn lemma_department_keys_round_trip(d: Department, key: Seq<char>)
    ensures
        department_named(department_key(d)) == Some(d),
        department_named(key) matches Some(e) ==> department_key(e) == key,
{
    lemma_department_keys_distinct();
}

/// The three option keys differ pairwise.
proof fn lemma_department_keys_distinct()
    ensures
        "billing"@ != "technical"@,
        "billing"@ != "other"@,
        "technical"@ != "other"@,
{
    reveal_strlit("billing");
    reveal_strlit("technical");
    reveal_strlit("other");
    assert("billing"@.len() == 7);
    assert("technical"@.len() == 9);
    assert("other"@.len() == 5);
}

impl ChoiceOptions for Department {
    open spec fn key_of(v: Department) -> Seq<char> {
        department_key(v)
    }

    proof fn lemma_keys_distinct(a: Department, b: Department) {
        lemma_department_keys_distinct();
    }

    open spec fn declared() -> Seq<Department> {
        seq![Department::Billing, Department::Technical, Department::Other]
    }

    proof fn lemma_every_variant_declared(v: Department) {
        match v {
            Department::Billing => assert(Self::declared()[0] == v),
            Department::Technical => assert(Self::declared()[1] == v),
            Department::Other => assert(Self::declared()[2] == v),
        }
    }

    fn options() -> (keys: Vec<&'static str>)
        ensures
            keys@.map_values(|k: &str| k@) == seq!["billing"@, "technical"@, "other"@],
    {
        let mut keys: Vec<&'static str> = Vec::new();
        keys.push("billing");
        keys.push("technical");
        keys.push("other");
        assert(keys@.map_values(|k: &str| k@) =~= seq!["billing"@, "technical"@, "other"@]);
        proof {
            lemma_department_keys_distinct();
            assert(Self::declared().map_values(|v: Department| Self::key_of(v)) =~= seq!["billing"@, "technical"@, "other"@]);
            let vs = crate::question::str_views(keys@);
            assert forall|i: int, j: int| 0 <= i < vs.len() && 0 <= j < vs.len() && i != j implies vs[i] != vs[j] by {}
            assert forall|i: int| 0 <= i < keys@.len() implies exists|v: Department| #[trigger] Self::key_of(v) == (#[trigger] keys@[i])@ by {
                if i == 0 {
                    assert(Self::key_of(Department::Billing) == keys@[i]@);
                } else if i == 1 {
                    assert(Self::key_of(Department::Technical) == keys@[i]@);
                } else {
                    assert(Self::key_of(Department::Other) == keys@[i]@);
                }
            }
            assert forall|v: Department| crate::question::str_views(keys@).contains(#[trigger] Self::key_of(v)) by {
                let vs = crate::question::str_views(keys@);
                match v {
                    Department::Billing => assert(vs[0] == Self::key_of(v)),
                    Department::Technical => assert(vs[1] == Self::key_of(v)),
                    Department::Other => assert(vs[2] == Self::key_of(v)),
                }
            }
        }
        keys
    }

    fn from_option(option: &str) -> (r: JevResult<Self>)
        ensures
            match department_named(option@) {
                Some(d) => r == Ok::<Department, JevError>(d),
                None => r matches Err(e) && e@ == ErrorView::UnknownOption { option: option@, id: "department"@ },
            },
    {
        proof {
            lemma_department_keys_distinct();
            assert(Self::key_of(Department::Billing) == "billing"@);
            assert(Self::key_of(Department::Technical) == "technical"@);
            assert(Self::key_of(Department::Other) == "other"@);
        }
        if str_equal(option, "billing") {
            Ok(Department::Billing)
        } else if str_equal(option, "technical") {
            Ok(Department::Technical)
        } else if str_equal(option, "other") {
            Ok(Department::Other)
        } else {
            proof {
                assert forall|v: Department| #[trigger] Self::key_of(v) != option@ by {
                    match v {
                        Department::Billing => {},
                        Department::Technical => {},
                        Department::Other => {},
                    }
                }
            }
            Err(JevError::UnknownOption { option: owned(option), id: owned("department") })
        }
    }

    fn option_name(&self) -> (r: &'static str)
        ensures
            r@ == department_key(*self),
    {
        match self {
            Department::Billing => "billing",
            Department::Technical => "technical",
            Department::Other => "other",
        }
    }
}

/// The department question composed from `ed`: the fixed question text
/// and one criteria entry per option.
pub open spec fn department_question(q: WireQuestion, ed: DepartmentCriteria) -> bool {
    q matches WireQuestion::Choice { instructions, criteria } && {
        &&& instructions matches Instructions::Text(t) && t@ == "Which team should handle this ticket?"@
        &&& criteria@.len() == 3
        &&& lookup(criteria@, "billing"@) == Some(Some(ed.billing))
        &&& lookup(criteria@, "technical"@) == Some(Some(ed.technical))
        &&& lookup(criteria@, "other"@) == Some(Some(ed.other))
    }
}

/// Runtime criteria for [`Department`], one text per option.
#[derive(Clone, Debug)]
pub struct DepartmentCriteria {
    pub billing: Instructions,
    pub technical: Instructions,
    pub other: Instructions,
}

impl QuestionType for Department {
    type CriteriaEditor = DepartmentCriteria;

    const KIND: QuestionKind = QuestionKind::Choice;

    fn question_id() -> (r: &'static str)
        ensures
            r@ == "department"@,
    {
        "department"
    }

    /// Composes the wire question. Its criteria are runtime-supplied, so
    /// composing without an editor fails, naming the question.
    fn compose_wire(editor: Option<DepartmentCriteria>) -> (r: JevResult<WireQuestion>)
        ensures
            editor is None ==> (r matches Err(e) && e@ == ErrorView::MissingCriteria { id: "department"@ }),
            editor matches Some(ed) ==> (r matches Ok(q) && department_question(q, ed)),
    {
        match editor {
            None => Err(JevError::MissingCriteria { id: owned("department") }),
            Some(ed) => {
                proof {
                    lemma_department_keys_distinct();
                }
                let mut criteria: KeyedMap<Option<Instructions>> = KeyedMap::new();
                criteria.insert(owned("billing"), Some(ed.billing));
                assert(!has_key(criteria@, "technical"@)) by {
                    assert(lookup(criteria@, "technical"@) is None);
                }
                criteria.insert(owned("technical"), Some(ed.technical));
                assert(!has_key(criteria@, "other"@)) by {
                    assert(lookup(criteria@, "other"@) is None);
                }
                criteria.insert(owned("other"), Some(ed.other));
                Ok(WireQuestion::Choice {
                    instructions: Instructions::text("Which team should handle this ticket?"),
                    criteria,
                })
            },
        }
    }
}

/// The urgency question: fixed question text and both poles described.
pub open spec fn urgency_question(q: WireQuestion) -> bool {
    q matches WireQuestion::Noul { instructions, criteria: Some(c) }
        && (instructions matches Instructions::Text(t) && t@ == "Does this ticket convey time pressure?"@)
        && (c.yes matches Instructions::Text(y) && y@ == "Explicit deadline or costly delay"@)
        && (c.no matches Instructions::Text(n) && n@ == "No time pressure expressed"@)
}

/// Whether the ticket conveys time pressure.
#[derive(Clone, Copy, Debug, PartialEq, Eq, Structural)]
pub struct IsUrgent;

impl QuestionType for IsUrgent {
    type CriteriaEditor = ();

    const KIND: QuestionKind = QuestionKind::Noul;

    fn question_id() -> (r: &'static str)
        ensures
            r@ == "is_urgent"@,
    {
        "is_urgent"
    }

    /// Composes the wire question, with both poles described; the
    /// criteria are static, so an editor changes nothing.
    fn compose_wire(editor: Option<()>) -> (r: JevResult<WireQuestion>)
        ensures
            r matches Ok(q) && urgency_question(q),
    {
        Ok(WireQuestion::Noul {
            instructions: Instructions::text("Does this ticket convey time pressure?"),
            criteria: Some(NoulCriteria {
                yes: Instructions::text("Explicit deadline or costly delay"),
                no: Instructions::text("No time pressure expressed"),
            }),
        })
    }
}

/// How frustrated the customer appears: rubric levels 0, 1, 2.
#[derive(Clone, Copy, Debug, PartialEq, Eq, Structural)]
pub enum Frustration {
    Calm,
    Concerned,
    Angry,
}

impl ScoreLevels for Frustration {
    const ID: &'static str = "frustration";
    const LEVELS: u8 = 3;

    open spec fn level_of(v: Frustration) -> nat {
        match v {
            Frustration::Calm => 0,
            Frustration::Concerned => 1,
            Frustration::Angry => 2,
        }
    }

    proof fn lemma_levels_distinct(a: Frustration, b: Frustration) {
    }

    fn from_level(level: u8) -> (r: Option<Self>)
        ensures
            r == Frustration::at(level as nat),
    {
        match level {
            0 => Some(Frustration::Calm),
            1 => Some(Frustration::Concerned),
            2 => Some(Frustration::Angry),
            _ => None,
        }
    }
}

/// Runtime criteria for [`Frustration`], one text per level.
#[derive(Clone, Debug)]
pub struct FrustrationCriteria(pub Vec<Instructions>);

/// Why an editor's rubric cannot stand for the frustration levels.
pub open spec fn frustration_fault(editor: Option<FrustrationCriteria>) -> Option<Seq<char>> {
    match editor {
        Some(ed) => score_editor_fault("frustration"@, 3, ed.0@),
        None => None,
    }
}

/// The frustration question: the fixed question text over the editor's
/// rubric, or over the static three-level rubric when no editor is given.
pub open spec fn frustration_question(q: WireQuestion, editor: Option<FrustrationCriteria>) -> bool {
    q matches WireQuestion::Score { instructions, criteria } && {
        &&& instructions matches Instructions::Text(t) && t@ == "How frustrated does the customer appear?"@
        &&& match editor {
            Some(ed) => criteria == ed.0,
            None => {
                &&& criteria@.len() == 3
                &&& criteria@[0] matches Instructions::Text(a) && a@ == "Calm and neutral"@
                &&& criteria@[1] matches Instructions::Text(b) && b@ == "Concerned but civil"@
                &&& criteria@[2] matches Instructions::Text(c) && c@ == "Very angry or strong language"@
            },
        }
    }
}

impl Frustration {
    /// The variant at rubric level `level`, if in range.
    pub open spec fn at(level: nat) -> Option<Frustration> {
        if level == 0 {
            Some(Frustration::Calm)
        } else if level == 1 {
            Some(Frustration::Concerned)
        } else if level == 2 {
            Some(Frustration::Angry)
        } else {
            None
        }
    }

    /// Levels and variants correspond one to one: each variant's level
    /// gives the variant back, and a level with a variant is that
    /// variant's level.
    pub proof fn lemma_levels_round_trip(f: Frustration, level: nat)
        ensures
            Self::at(<Frustration as ScoreLevels>::level_of(f)) == Some(f),
            Self::at(level) matches Some(g) ==> <Frustration as ScoreLevels>::level_of(g) == level,
    {
    }
}

impl QuestionType for Frustration {
    type CriteriaEditor = FrustrationCriteria;

    const KIND: QuestionKind = QuestionKind::Score;

    fn question_id() -> (r: &'static str)
        ensures
            r@ == "frustration"@,
    {
        "frustration"
    }

    /// Composes the wire question: the editor's rubric when one is given
    /// (exactly three non-blank levels), the static rubric otherwise.
    fn compose_wire(editor: Option<FrustrationCriteria>) -> (r: JevResult<WireQuestion>)
        ensures
            match frustration_fault(editor) {
                Some(m) => r matches Err(JevError::Schema(e)) && e@ == m,
                None => r matches Ok(q) && frustration_question(q, editor),
            },
    {
        match editor {
            Some(ed) => {
                proof {
                    reveal_strlit("frustration");
                }
                score_editor_levels("frustration", 3, ed.0.as_slice())?;
                Ok(WireQuestion::Score { instructions: Instructions::text("How frustrated does the customer appear?"), criteria: ed.0 })
            },
            None => {
                let mut criteria: Vec<Instructions> = Vec::new();
                criteria.push(Instructions::text("Calm and neutral"));
                criteria.push(Instructions::text("Concerned but civil"));
                criteria.push(Instructions::text("Very angry or strong language"));
                assert(criteria@.len() == 3);
                Ok(WireQuestion::Score { instructions: Instructions::text("How frustrated does the customer appear?"), criteria })
            },
        }
    }
}

/// A customer's plan.
#[derive(Clone, Copy, Debug, PartialEq, Eq, Structural)]
pub enum Tier {
    Free,
    Pro,
    Enterprise,
}

/// The candidate an application is checked against.
#[derive(Clone, Debug)]
pub struct CandidateRef {
    pub name: String,
    pub location: String,
}

/// The application under review.
#[derive(Clone, Debug)]
pub struct ApplicationRef {
    pub id: String,
    pub stated_employer: String,
}

/// Struct-to-string contract: the question references `candidate`, a
/// field that serializes under that name.
#[derive(Clone, Debug)]
pub struct SamePersonQ {
    pub candidate: CandidateRef,
    pub application: ApplicationRef,
}

impl SamePersonQ {
    /// The question text.
    pub const QUESTION: &'static str = "Is this application for the same person as `candidate`?";
}

/// The question set: department, urgency, frustration.
#[derive(Clone, Copy, Debug, PartialEq, Eq, Structural)]
pub struct TicketTriage {
    pub department: Department,
    pub is_urgent: IsUrgent,
    pub frustration: Frustration,
}

/// Runtime criteria for the question set.
#[derive(Clone, Debug)]
pub struct TicketTriageCustomization {
    pub department: Option<DepartmentCriteria>,
    pub is_urgent: Option<()>,
    pub frustration: Option<FrustrationCriteria>,
}

impl TicketTriageCustomization {
    /// No runtime criteria at all.
    pub fn empty() -> (c: Self)
        ensures
            c.department is None,
            c.is_urgent is None,
            c.frustration is None,
    {
        TicketTriageCustomization { department: None, is_urgent: None, frustration: None }
    }
}

/// The top-level keys the ticket state serializes to: `ticket`,
/// `sla_hours` and `account_tier`, its field names.
pub fn ticket_state_keys() -> (r: Vec<&'static str>)
    ensures
        r@.map_values(|k: &str| k@) == seq!["ticket"@, "sla_hours"@, "account_tier"@],
{
    let mut keys: Vec<&'static str> = Vec::new();
    keys.push("ticket");
    keys.push("sla_hours");
    keys.push("account_tier");
    assert(keys@.map_values(|k: &str| k@) =~= seq!["ticket"@, "sla_hours"@, "account_tier"@]);
    keys
}

/// What composing the triage set under `c` gives: the department's
/// missing criteria first, then a faulty frustration rubric, else the
/// three questions under their ids.
pub open spec fn triage_outcome(c: TicketTriageCustomization, r: JevResult<Seq<(Seq<char>, WireQuestion)>>) -> bool {
    match c.department {
        None => r matches Err(e) && e@ == ErrorView::MissingCriteria { id: "department"@ },
        Some(ed) => match frustration_fault(c.frustration) {
            Some(m) => r matches Err(JevError::Schema(e)) && e@ == m,
            None => r matches Ok(m) && {
                &&& m.len() == 3
                &&& lookup(m, "department"@) matches Some(q) && department_question(q, ed)
                &&& lookup(m, "is_urgent"@) matches Some(q) && urgency_question(q)
                &&& lookup(m, "frustration"@) matches Some(q) && frustration_question(q, c.frustration)
            },
        },
    }
}

/// The question texts of the set carry no backtick reference.
proof fn lemma_triage_texts_reference_nothing()
    ensures
        backtick_tokens("Which team should handle this ticket?"@) == Seq::<Seq<char>>::empty(),
        backtick_tokens("Does this ticket convey time pressure?"@) == Seq::<Seq<char>>::empty(),
        backtick_tokens("How frustrated does the customer appear?"@) == Seq::<Seq<char>>::empty(),
{
    reveal_strlit("Which team should handle this ticket?");
    reveal_strlit("Does this ticket convey time pressure?");
    reveal_strlit("How frustrated does the customer appear?");
    assert(!"Which team should handle this ticket?"@.contains('`'));
    assert(!"Does this ticket convey time pressure?"@.contains('`'));
    assert(!"How frustrated does the customer appear?"@.contains('`'));
    lemma_backtick_free("Which team should handle this ticket?"@);
    lemma_backtick_free("Does this ticket convey time pressure?"@);
    lemma_backtick_free("How frustrated does the customer appear?"@);
}

impl TicketTriage {
    /// Starts a typed request for the set.
    pub fn request() -> (b: RequestBuilder<TicketTriage>)
        ensures
            b.state_value() is None,
            b.customization_value().department is None,
            b.customization_value().frustration is None,
    {
        RequestBuilder::new()
    }
}

impl QuestionSet for TicketTriage {
    type Customization = TicketTriageCustomization;

    open spec fn composes_to(customization: TicketTriageCustomization, r: JevResult<Seq<(Seq<char>, WireQuestion)>>) -> bool {
        triage_outcome(customization, r)
    }

    open spec fn is_unfilled(c: TicketTriageCustomization) -> bool {
        c.department is None && c.is_urgent is None && c.frustration is None
    }

    fn no_customization() -> TicketTriageCustomization {
        TicketTriageCustomization::empty()
    }

    /// Composes every question of the set from the customization, in field
    /// order, then checks every reference against the ticket state's keys.
    fn compose(customization: TicketTriageCustomization) -> (r: JevResult<KeyedMap<WireQuestion>>) {
        let ghost c = customization;
        let mut parts: Vec<(String, JevResult<WireQuestion>)> = Vec::new();
        parts.push((owned("department"), Department::compose_wire(customization.department)));
        parts.push((owned("is_urgent"), IsUrgent::compose_wire(customization.is_urgent)));
        parts.push((owned("frustration"), Frustration::compose_wire(customization.frustration)));
        let ghost ps = parts@.map_values(|p: (String, JevResult<WireQuestion>)| (p.0@, p.1));
        proof {
            reveal_strlit("department");
            reveal_strlit("is_urgent");
            reveal_strlit("frustration");
            assert(parts@[0].0@ == "department"@);
            assert(parts@[1].0@ == "is_urgent"@);
            assert(parts@[2].0@ == "frustration"@);
            assert(ps[0].0 == "department"@ && ps[1].0 == "is_urgent"@ && ps[2].0 == "frustration"@);
            assert(ps[0].0 != ps[1].0 && ps[0].0 != ps[2].0 && ps[1].0 != ps[2].0) by {
                assert("department"@.len() == 10);
                assert("is_urgent"@.len() == 9);
                assert("frustration"@.len() == 11);
            }
            assert(part_fails(ps, 0) == ps[0].1 is Err);
            assert(part_fails(ps, 1) == ps[1].1 is Err);
            assert(part_fails(ps, 2) == ps[2].1 is Err);
        }
        let questions = compose_questions(parts, None)?;
        let keys = ticket_state_keys();
        proof {
            use_type_invariant(&questions);
            let m = questions@;
            let d = ps[0].1->Ok_0;
            let u = ps[1].1->Ok_0;
            let f = ps[2].1->Ok_0;
            assert(holds_parts(m, ps));
            assert(lookup(m, ps[0].0) == Some(d));
            assert(lookup(m, ps[1].0) == Some(u));
            assert(lookup(m, ps[2].0) == Some(f));
            lemma_triage_texts_reference_nothing();
            let ia = index_of_key(m, "department"@);
            let ib = index_of_key(m, "is_urgent"@);
            let ic = index_of_key(m, "frustration"@);
            assert forall|i: int| 0 <= i < m.len() implies #[trigger] refs_in(instructions_of(m[i].1)) == Seq::<Seq<char>>::empty() by {
                lemma_lookup_at(m, i);
                assert(m[ia].0 == "department"@);
                assert(m[ib].0 == "is_urgent"@);
                assert(m[ic].0 == "frustration"@);
                assert(i == ia || i == ib || i == ic);
            }
            lemma_no_refs_no_dangling(m, keys@.map_values(|k: &str| k@));
        }
        validate_state_refs(&questions, Some(keys.as_slice()))?;
        Ok(questions)
    }
}

/// A tenant whose texts supply the runtime criteria.
#[derive(Clone, Copy, Debug)]
pub struct Tenant {
    pub product: &'static str,
    pub billing_desc: &'static str,
    pub technical_desc: &'static str,
    pub other_desc: &'static str,
}

/// The demo tenant: its texts prove criteria can be resolved at call time.
pub fn tenant() -> (t: Tenant)
    ensures
        t.product@ == "Loom"@,
        t.billing_desc@ == "Payments, invoicing, and refunds (Acme Corp)"@,
        t.technical_desc@ == "Bugs, outages, and Loom integrations"@,
        t.other_desc@ == "None of the above clearly fits"@,
{
    Tenant {
        product: "Loom",
        billing_desc: "Payments, invoicing, and refunds (Acme Corp)",
        technical_desc: "Bugs, outages, and Loom integrations",
        other_desc: "None of the above clearly fits",
    }
}

/// Confidence-gated routing: billing and technical tickets go to their
/// lane automatically when the department answer's confidence clears the
/// act gate (`confident`); everything else goes to human review.
pub fn route(selected: Department, confident: bool) -> (r: &'static str)
    ensures
        selected == Department::Billing && confident ==> r@ == "billing lane (auto)"@,
        selected == Department::Technical && confident ==> r@ == "technical lane (auto)"@,
        !((selected == Department::Billing || selected == Department::Technical) && confident) ==> r@ == "human review (low confidence)"@,
{
    match selected {
        Department::Billing if confident => "billing lane (auto)",
        Department::Technical if confident => "technical lane (auto)",
        _ => "human review (low confidence)",
    }
}

} // verus!
