//! Question composition: the decision value the client sends, its
//! builder, runtime-built choice questions, and the checks that typed
//! question sets run when they compose.

use vstd::prelude::*;

use crate::error::{ErrorView, JevError, JevResult};
use crate::keyed::{has_key, keys_of, lookup, strictly_sorted, KeyedMap};
use crate::refs::{first_dangling, validate_state_refs};
use crate::text::{concat, concat3, decimal_string, decimal_text, has_visible_char, is_blank, owned};
use crate::wire::{instructions_non_empty, Instructions, WireQuestion};

verus! {

/// The three System One primitives.
#[derive(Clone, Copy, Debug, PartialEq, Eq, Structural)]
pub enum QuestionKind {
    /// Pick one option from a set.
    Choice,
    /// Rate against an ordered rubric.
    Score,
    /// Estimate P(yes).
    Noul,
}

/// Implemented by every question type: its primitive, its wire id, and
/// how it composes from its runtime criteria, if any.
pub trait QuestionType {
    /// The runtime-criteria editor (`()` when the criteria are static).
    type CriteriaEditor;

    /// The question's primitive.
    const KIND: QuestionKind;

    /// The wire id.
    fn question_id() -> &'static str;

    /// Composes the wire question from the editor, when one is given.
    fn compose_wire(editor: Option<Self::CriteriaEditor>) -> JevResult<WireQuestion>;
}

/// Static strings read as character sequences.
pub open spec fn str_views(keys: Seq<&str>) -> Seq<Seq<char>> {
    keys.map_values(|k: &str| k@)
}

/// Implemented by choice enums: option keys both ways. Distinct variants
/// have distinct keys.
pub trait ChoiceOptions: Sized {
    /// The wire key of a variant.
    spec fn key_of(v: Self) -> Seq<char>;

    /// Distinct variants have distinct keys.
    proof fn lemma_keys_distinct(a: Self, b: Self)
        ensures
            Self::key_of(a) == Self::key_of(b) ==> a == b,
    ;

    /// The variants, in declaration order.
    spec fn declared() -> Seq<Self>;

    /// Every variant is declared.
    proof fn lemma_every_variant_declared(v: Self)
        ensures
            Self::declared().contains(v),
    ;

    /// Wire keys for every variant, in declaration order, each once.
    fn options() -> (keys: Vec<&'static str>)
        ensures
            str_views(keys@) == Self::declared().map_values(|v: Self| Self::key_of(v)),
            str_views(keys@).no_duplicates(),
            forall|v: Self| str_views(keys@).contains(#[trigger] Self::key_of(v)),
            forall|i: int| 0 <= i < keys@.len() ==> exists|v: Self| #[trigger] Self::key_of(v) == (#[trigger] keys@[i])@,
    ;

    /// Parses a wire option key into the variant (strict).
    fn from_option(option: &str) -> (r: JevResult<Self>)
        ensures
            (exists|v: Self| #[trigger] Self::key_of(v) == option@) <==> r is Ok,
            r matches Ok(v) ==> Self::key_of(v) == option@,
            r matches Err(e) ==> (e@ matches ErrorView::UnknownOption { option: o, .. } && o == option@),
    ;

    /// This variant's wire key.
    fn option_name(&self) -> (r: &'static str)
        ensures
            r@ == Self::key_of(*self),
    ;
}

/// Parsing a variant's option name gives the variant back, for every
/// choice enum.
pub proof fn lemma_option_round_trip<T: ChoiceOptions>(v: T, w: T)
    requires
        T::key_of(w) == T::key_of(v),
    ensures
        w == v,
{
    T::lemma_keys_distinct(w, v);
}

/// The variant read back from a variant's level is that variant, for
/// every score enum.
pub proof fn lemma_level_round_trip<T: ScoreLevels>(v: T, w: T)
    requires
        T::level_of(w) == T::level_of(v),
    ensures
        w == v,
        T::level_of(v) < T::LEVELS,
{
    T::lemma_levels_distinct(w, v);
    T::lemma_levels_distinct(v, w);
}

/// Implemented by score enums: ordered rubric levels, each level one
/// variant.
pub trait ScoreLevels: Sized {
    /// This question's wire id (for error context).
    const ID: &'static str;

    /// Number of rubric levels (declaration order = level order).
    const LEVELS: u8;

    /// The rubric level of a variant.
    spec fn level_of(v: Self) -> nat;

    /// Every variant's level lies in the rubric, and distinct variants
    /// have distinct levels.
    proof fn lemma_levels_distinct(a: Self, b: Self)
        ensures
            Self::level_of(a) < Self::LEVELS,
            Self::level_of(a) == Self::level_of(b) ==> a == b,
    ;

    /// The variant at rubric level `level`, if in range.
    fn from_level(level: u8) -> (r: Option<Self>)
        ensures
            r matches Some(v) ==> Self::level_of(v) == level,
            r is Some <==> level < Self::LEVELS,
    ;
}

/// Message for a question id used twice.
pub open spec fn duplicate_id_message(id: Seq<char>) -> Seq<char> {
    "duplicate question id `"@ + id + "`"@
}

/// Message for a decision without questions.
pub open spec fn no_questions_message() -> Seq<char> {
    "a decision must carry at least one question"@
}

/// A complete evaluation: state plus questions. What the client sends.
#[derive(Clone, Debug)]
pub struct Decision {
    state: serde_json::Value,
    questions: KeyedMap<WireQuestion>,
}

impl Decision {
    /// The state this decision carries (spec view).
    pub closed spec fn state_value(&self) -> serde_json::Value {
        self.state
    }

    /// The questions this decision carries, by id (spec view).
    pub closed spec fn question_entries(&self) -> Seq<(Seq<char>, WireQuestion)> {
        self.questions@
    }

    /// Starts a dynamic decision builder.
    pub fn builder() -> (b: DecisionBuilder)
        ensures
            b.state_value() is None,
            b.question_entries().len() == 0,
    {
        DecisionBuilder::new()
    }

    /// Assembles a decision from a state and composed questions.
    pub fn from_parts(state: serde_json::Value, questions: KeyedMap<WireQuestion>) -> (d: Decision)
        ensures
            d.state_value() == state,
            d.question_entries() == questions@,
    {
        Decision { state, questions }
    }

    /// The serialized state payload.
    pub fn state(&self) -> (r: &serde_json::Value)
        ensures
            *r == self.state_value(),
    {
        &self.state
    }

    /// The composed wire questions.
    pub fn questions(&self) -> (r: &KeyedMap<WireQuestion>)
        ensures
            r@ == self.question_entries(),
    {
        &self.questions
    }

    /// Adds a dynamically built question; an id already present is a
    /// schema error and leaves nothing changed.
    pub fn with_question(self, built: BuiltQuestion) -> (r: JevResult<Decision>)
        ensures
            has_key(self.question_entries(), built.id@) ==> (r matches Err(JevError::Schema(m)) && m@ == duplicate_id_message(built.id@)),
            !has_key(self.question_entries(), built.id@) ==> (r matches Ok(d) && {
                &&& d.state_value() == self.state_value()
                &&& lookup(d.question_entries(), built.id@) == Some(built.question)
                &&& forall|k: Seq<char>| k != built.id@ ==> #[trigger] lookup(d.question_entries(), k) == lookup(self.question_entries(), k)
                &&& d.question_entries().len() == self.question_entries().len() + 1
            }),
    {
        let mut questions = self.questions;
        if questions.contains_key(built.id.as_str()) {
            return Err(JevError::Schema(concat3("duplicate question id `", built.id.as_str(), "`")));
        }
        questions.insert(built.id, built.question);
        Ok(Decision { state: self.state, questions })
    }
}

/// Dynamic decision composition without typed question sets.
#[derive(Debug)]
pub struct DecisionBuilder {
    state: Option<serde_json::Value>,
    questions: KeyedMap<WireQuestion>,
}

impl DecisionBuilder {
    /// The state set so far (spec view).
    pub closed spec fn state_value(&self) -> Option<serde_json::Value> {
        self.state
    }

    /// The questions added so far, by id (spec view).
    pub closed spec fn question_entries(&self) -> Seq<(Seq<char>, WireQuestion)> {
        self.questions@
    }

    /// A builder with no state and no questions.
    pub fn new() -> (b: Self)
        ensures
            b.state_value() is None,
            b.question_entries().len() == 0,
    {
        DecisionBuilder { state: None, questions: KeyedMap::new() }
    }

    /// Sets the (already serialized) state payload.
    pub fn state(self, state: serde_json::Value) -> (b: Self)
        ensures
            b.state_value() == Some(state),
            b.question_entries() == self.question_entries(),
    {
        DecisionBuilder { state: Some(state), questions: self.questions }
    }

    /// Adds a built question; an id already present is a schema error.
    pub fn with_question(self, built: BuiltQuestion) -> (r: JevResult<Self>)
        ensures
            has_key(self.question_entries(), built.id@) ==> (r matches Err(JevError::Schema(m)) && m@ == duplicate_id_message(built.id@)),
            !has_key(self.question_entries(), built.id@) ==> (r matches Ok(b) && {
                &&& b.state_value() == self.state_value()
                &&& lookup(b.question_entries(), built.id@) == Some(built.question)
                &&& forall|k: Seq<char>| k != built.id@ ==> #[trigger] lookup(b.question_entries(), k) == lookup(self.question_entries(), k)
                &&& b.question_entries().len() == self.question_entries().len() + 1
            }),
    {
        let mut questions = self.questions;
        if questions.contains_key(built.id.as_str()) {
            return Err(JevError::Schema(concat3("duplicate question id `", built.id.as_str(), "`")));
        }
        questions.insert(built.id, built.question);
        Ok(DecisionBuilder { state: self.state, questions })
    }

    /// Finishes the decision: a state is required, then at least one
    /// question.
    pub fn build(self) -> (r: JevResult<Decision>)
        ensures
            self.state_value() is None ==> r == Err::<Decision, JevError>(JevError::MissingState),
            self.state_value() is Some && self.question_entries().len() == 0 ==> (r matches Err(JevError::Schema(m)) && m@ == no_questions_message()),
            self.state_value() is Some && self.question_entries().len() > 0 ==> (r matches Ok(d) && {
                &&& Some(d.state_value()) == self.state_value()
                &&& d.question_entries() == self.question_entries()
            }),
    {
        let state = match self.state {
            None => return Err(JevError::MissingState),
            Some(state) => state,
        };
        if self.questions.is_empty() {
            return Err(JevError::Schema(owned("a decision must carry at least one question")));
        }
        Ok(Decision { state, questions: self.questions })
    }
}

/// Implemented by typed question sets: every question of the set,
/// composed from the set's runtime criteria and checked against the
/// paired state's keys.
pub trait QuestionSet {
    /// Runtime criteria, one optional editor per question.
    type Customization;

    /// Whether `r` (the questions by id, or the error) is what composing
    /// the set under `customization` gives.
    spec fn composes_to(customization: Self::Customization, r: JevResult<Seq<(Seq<char>, WireQuestion)>>) -> bool;

    /// Whether `c` fills in no runtime criteria.
    spec fn is_unfilled(c: Self::Customization) -> bool;

    /// The customization with no runtime criteria filled in.
    fn no_customization() -> (c: Self::Customization)
        ensures
            Self::is_unfilled(c),
    ;

    /// Composes every question of the set.
    fn compose(customization: Self::Customization) -> (r: JevResult<KeyedMap<WireQuestion>>)
        ensures
            Self::composes_to(customization, match r {
                Ok(m) => Ok(m@),
                Err(e) => Err(e),
            }),
    ;
}

/// Typed request builder for a question set: the serialized state and the
/// runtime criteria, composed into a [`Decision`] on `build`.
pub struct RequestBuilder<Q: QuestionSet> {
    state: Option<serde_json::Value>,
    customization: Q::Customization,
}

impl<Q: QuestionSet> RequestBuilder<Q> {
    /// The state set so far (spec view).
    pub closed spec fn state_value(&self) -> Option<serde_json::Value> {
        self.state
    }

    /// The runtime criteria set so far (spec view).
    pub closed spec fn customization_value(&self) -> Q::Customization {
        self.customization
    }

    /// A builder with no state and no runtime criteria.
    pub fn new() -> (b: Self)
        ensures
            b.state_value() is None,
            Q::is_unfilled(b.customization_value()),
    {
        RequestBuilder { state: None, customization: Q::no_customization() }
    }

    /// Sets the (already serialized) state payload.
    pub fn state(self, state: serde_json::Value) -> (b: Self)
        ensures
            b.state_value() == Some(state),
            b.customization_value() == self.customization_value(),
    {
        RequestBuilder { state: Some(state), customization: self.customization }
    }

    /// Sets the runtime criteria.
    pub fn customize(self, customization: Q::Customization) -> (b: Self)
        ensures
            b.state_value() == self.state_value(),
            b.customization_value() == customization,
    {
        RequestBuilder { state: self.state, customization }
    }

    /// Composes the decision: a state is required, then the set composes
    /// under the runtime criteria.
    pub fn build(self) -> (r: JevResult<Decision>)
        ensures
            self.state_value() is None ==> r == Err::<Decision, JevError>(JevError::MissingState),
            self.state_value() matches Some(s) ==> match r {
                Ok(d) => d.state_value() == s && Q::composes_to(self.customization_value(), Ok(d.question_entries())),
                Err(e) => Q::composes_to(self.customization_value(), Err(e)),
            },
    {
        let state = match self.state {
            None => return Err(JevError::MissingState),
            Some(state) => state,
        };
        match Q::compose(self.customization) {
            Ok(questions) => Ok(Decision { state, questions }),
            Err(e) => Err(e),
        }
    }
}

/// A question built at runtime, ready to add to a [`Decision`].
#[derive(Clone, Debug)]
pub struct BuiltQuestion {
    /// The question id.
    pub id: String,
    /// The composed wire question.
    pub question: WireQuestion,
}

/// The most options a choice question may carry.
pub const MAX_OPTIONS: usize = 255;

/// Runtime-built choice question: the option set is supplied at build
/// time and answers are strictly validated against exactly that set.
#[derive(Clone, Debug)]
pub struct DynChoice {
    id: String,
    instructions: Instructions,
    options: KeyedMap<Option<Instructions>>,
}

/// Why a dynamic choice cannot be built, in the order the checks run.
pub open spec fn dyn_choice_fault(id: Seq<char>, instructions: Instructions, option_count: nat) -> Option<Seq<char>> {
    if !has_visible_char(id) {
        Some("dynamic choice id must be non-empty"@)
    } else if !instructions_non_empty(instructions) {
        Some("dynamic choice `"@ + id + "` has empty instructions"@)
    } else if option_count == 0 {
        Some("dynamic choice `"@ + id + "` needs at least one option"@)
    } else if option_count > 255 {
        Some("dynamic choice `"@ + id + "` has "@ + decimal_text(option_count) + " options; max is 255"@)
    } else {
        None
    }
}

impl DynChoice {
    /// The question id (spec view).
    pub closed spec fn id_view(&self) -> Seq<char> {
        self.id@
    }

    /// The question's instructions (spec view).
    pub closed spec fn instructions_view(&self) -> Instructions {
        self.instructions
    }

    /// The options added so far, by key (spec view).
    pub closed spec fn option_entries(&self) -> Seq<(Seq<char>, Option<Instructions>)> {
        self.options@
    }

    /// Starts a dynamic choice with no options.
    pub fn new(id: &str, instructions: Instructions) -> (c: Self)
        ensures
            c.id_view() == id@,
            c.instructions_view() == instructions,
            c.option_entries().len() == 0,
    {
        DynChoice { id: owned(id), instructions, options: KeyedMap::new() }
    }

    /// Adds (or replaces) an option with a rubric description.
    pub fn option(self, name: &str, criteria: Instructions) -> (c: Self)
        ensures
            c.id_view() == self.id_view(),
            c.instructions_view() == self.instructions_view(),
            lookup(c.option_entries(), name@) == Some(Some(criteria)),
            forall|k: Seq<char>| k != name@ ==> #[trigger] lookup(c.option_entries(), k) == lookup(self.option_entries(), k),
            has_key(self.option_entries(), name@) ==> c.option_entries().len() == self.option_entries().len(),
            !has_key(self.option_entries(), name@) ==> c.option_entries().len() == self.option_entries().len() + 1,
    {
        let mut options = self.options;
        options.insert(owned(name), Some(criteria));
        DynChoice { id: self.id, instructions: self.instructions, options }
    }

    /// Adds (or replaces) an option that needs no extra description.
    pub fn option_null(self, name: &str) -> (c: Self)
        ensures
            c.id_view() == self.id_view(),
            c.instructions_view() == self.instructions_view(),
            lookup(c.option_entries(), name@) == Some(None::<Instructions>),
            forall|k: Seq<char>| k != name@ ==> #[trigger] lookup(c.option_entries(), k) == lookup(self.option_entries(), k),
            has_key(self.option_entries(), name@) ==> c.option_entries().len() == self.option_entries().len(),
            !has_key(self.option_entries(), name@) ==> c.option_entries().len() == self.option_entries().len() + 1,
    {
        let mut options = self.options;
        options.insert(owned(name), None);
        DynChoice { id: self.id, instructions: self.instructions, options }
    }

    /// Validates the id, the instructions and the option count (1..=255)
    /// and produces the wire question.
    pub fn build(self) -> (r: JevResult<BuiltQuestion>)
        ensures
            match dyn_choice_fault(self.id_view(), self.instructions_view(), self.option_entries().len()) {
                Some(m) => r matches Err(JevError::Schema(e)) && e@ == m,
                None => r matches Ok(b) && b.id@ == self.id_view() && (b.question matches WireQuestion::Choice { instructions, criteria } && instructions == self.instructions_view() && criteria@ == self.option_entries()),
            },
    {
        if is_blank(self.id.as_str()) {
            return Err(JevError::Schema(owned("dynamic choice id must be non-empty")));
        }
        if !self.instructions.is_non_empty() {
            return Err(JevError::Schema(concat3("dynamic choice `", self.id.as_str(), "` has empty instructions")));
        }
        let n = self.options.len();
        if n == 0 {
            return Err(JevError::Schema(concat3("dynamic choice `", self.id.as_str(), "` needs at least one option")));
        }
        if n > MAX_OPTIONS {
            let head = concat3("dynamic choice `", self.id.as_str(), "` has ");
            let count = decimal_string(n);
            return Err(JevError::Schema(concat3(head.as_str(), count.as_str(), " options; max is 255")));
        }
        Ok(BuiltQuestion {
            id: self.id,
            question: WireQuestion::Choice { instructions: self.instructions, criteria: self.options },
        })
    }
}

/// The position of the first blank entry at or after `from`, if any.
pub open spec fn first_blank_from(editor: Seq<Instructions>, from: int) -> Option<int>
    decreases editor.len() - from,
{
    if from < 0 || from >= editor.len() {
        None
    } else if !instructions_non_empty(editor[from]) {
        Some(from)
    } else {
        first_blank_from(editor, from + 1)
    }
}

/// Why a score criteria editor does not fit its rubric, if it does not:
/// the wrong number of levels, or the first blank level.
pub open spec fn score_editor_fault(id: Seq<char>, levels: nat, editor: Seq<Instructions>) -> Option<Seq<char>> {
    if editor.len() != levels {
        Some("score `"@ + id + "` needs "@ + decimal_text(levels) + " rubric levels in its criteria editor, got "@ + decimal_text(editor.len()))
    } else {
        match first_blank_from(editor, 0) {
            Some(i) => Some("score `"@ + id + "` criteria editor level "@ + decimal_text(i as nat) + " is empty"@),
            None => None,
        }
    }
}

/// The blank entries at or after `from` are exactly those the search
/// finds: none when every entry from `from` on is non-empty, else the
/// first blank one.
proof fn lemma_first_blank_from(editor: Seq<Instructions>, from: int)
    requires
        0 <= from,
    ensures
        first_blank_from(editor, from) is None <==> forall|i: int| from <= i < editor.len() ==> instructions_non_empty(#[trigger] editor[i]),
        first_blank_from(editor, from) matches Some(b) ==> from <= b < editor.len() && !instructions_non_empty(editor[b])
            && forall|i: int| from <= i < b ==> instructions_non_empty(#[trigger] editor[i]),
    decreases editor.len() - from,
{
    if from < editor.len() && instructions_non_empty(editor[from]) {
        lemma_first_blank_from(editor, from + 1);
        assert forall|i: int| from <= i < editor.len() && (forall|k: int| from + 1 <= k < editor.len() ==> instructions_non_empty(#[trigger] editor[k]))
            implies instructions_non_empty(#[trigger] editor[i]) by {
            if i > from {
                assert(instructions_non_empty(editor[i]));
            }
        }
    }
}

/// A score criteria editor is accepted exactly when it has one entry per
/// rubric level and every entry, the first included, is non-empty; a
/// blank entry is reported by its (first) position.
pub proof fn lemma_score_editor_accepts_exactly_full_rubrics(id: Seq<char>, levels: nat, editor: Seq<Instructions>)
    ensures
        score_editor_fault(id, levels, editor) is None <==> {
            &&& editor.len() == levels
            &&& forall|i: int| 0 <= i < editor.len() ==> instructions_non_empty(#[trigger] editor[i])
        },
        editor.len() == levels && !instructions_non_empty(editor[0]) && levels > 0
            ==> score_editor_fault(id, levels, editor) == Some("score `"@ + id + "` criteria editor level "@ + decimal_text(0) + " is empty"@),
{
    lemma_first_blank_from(editor, 0);
}

/// Checks a runtime criteria editor for a score question: exactly
/// `levels` entries, none of them blank.
pub fn score_editor_levels(id: &str, levels: u8, editor: &[Instructions]) -> (r: JevResult<()>)
    ensures
        r is Ok <==> (editor@.len() == levels as nat && forall|i: int| 0 <= i < editor@.len() ==> instructions_non_empty(#[trigger] editor@[i])),
        match score_editor_fault(id@, levels as nat, editor@) {
            Some(m) => r matches Err(JevError::Schema(e)) && e@ == m,
            None => r is Ok,
        },
{
    if editor.len() != levels as usize {
        let a = concat3("score `", id, "` needs ");
        let b = concat(a.as_str(), decimal_string(levels as usize).as_str());
        let c = concat(b.as_str(), " rubric levels in its criteria editor, got ");
        return Err(JevError::Schema(concat(c.as_str(), decimal_string(editor.len()).as_str())));
    }
    let mut index: usize = 0;
    while index < editor.len()
        invariant
            index <= editor@.len(),
            editor@.len() == levels as nat,
            first_blank_from(editor@, 0) == first_blank_from(editor@, index as int),
        decreases editor.len() - index,
    {
        if !editor[index].is_non_empty() {
            let a = concat3("score `", id, "` criteria editor level ");
            let b = concat(a.as_str(), decimal_string(index).as_str());
            return Err(JevError::Schema(concat(b.as_str(), " is empty")));
        }
        index += 1;
    }
    proof {
        lemma_score_editor_accepts_exactly_full_rubrics(id@, levels as nat, editor@);
    }
    Ok(())
}

/// The position of the first failing part when composing a question
/// set in field order: a part whose composition failed, or one whose id
/// an earlier part already used.
pub open spec fn first_compose_failure(parts: Seq<(Seq<char>, JevResult<WireQuestion>)>) -> Option<int> {
    if exists|i: int| 0 <= i < parts.len() && #[trigger] part_fails(parts, i) {
        Some(choose|i: int| 0 <= i < parts.len() && #[trigger] part_fails(parts, i) && forall|j: int| 0 <= j < i ==> !#[trigger] part_fails(parts, j))
    } else {
        None
    }
}

/// Whether part `i` fails: its composition failed, or its id repeats an
/// earlier part's.
pub open spec fn part_fails(parts: Seq<(Seq<char>, JevResult<WireQuestion>)>, i: int) -> bool {
    parts[i].1 is Err || exists|j: int| 0 <= j < i && #[trigger] parts[j].0 == parts[i].0
}

/// Whether the composed questions `m` hold exactly the composed parts.
pub open spec fn holds_parts(m: Seq<(Seq<char>, WireQuestion)>, parts: Seq<(Seq<char>, JevResult<WireQuestion>)>) -> bool {
    &&& m.len() == parts.len()
    &&& forall|i: int| 0 <= i < parts.len() ==> (parts[i].1 matches Ok(q) && lookup(m, #[trigger] parts[i].0) == Some(q))
}

/// Composes a typed question set: each question's composed wire form
/// under its id, in field order. The first failed composition is
/// returned as is; an id used twice is a schema error; then every
/// question's references are checked against the state's keys.
pub fn compose_questions(parts: Vec<(String, JevResult<WireQuestion>)>, state_keys: Option<&[&str]>) -> (r: JevResult<KeyedMap<WireQuestion>>)
    ensures
        ({
            let ps = parts@.map_values(|p: (String, JevResult<WireQuestion>)| (p.0@, p.1));
            match first_compose_failure(ps) {
                Some(i) => match ps[i].1 {
                    Err(e) => r == Err::<KeyedMap<WireQuestion>, JevError>(e),
                    Ok(_) => r matches Err(JevError::Schema(m)) && m@ == duplicate_id_message(ps[i].0),
                },
                None => match state_keys {
                    None => r matches Ok(m) && holds_parts(m@, ps),
                    Some(keys) => {
                        ||| (r matches Ok(m) && holds_parts(m@, ps) && first_dangling(m@, keys@.map_values(|s: &str| s@)) is None)
                        ||| (r matches Err(JevError::DanglingStateRef { question, reference }) && exists|m: Seq<(Seq<char>, WireQuestion)>| strictly_sorted(keys_of(m)) && holds_parts(m, ps) && first_dangling(m, keys@.map_values(|s: &str| s@)) == Some((question@, reference@)))
                    },
                },
            }
        }),
{
    let ghost ps = parts@.map_values(|p: (String, JevResult<WireQuestion>)| (p.0@, p.1));
    let mut questions: KeyedMap<WireQuestion> = KeyedMap::new();
    let n = parts.len();
    for part in it: parts
        invariant
            n == ps.len(),
            it.seq().map_values(|p: (String, JevResult<WireQuestion>)| (p.0@, p.1)) == ps,
            forall|j: int| 0 <= j < it.index() ==> !#[trigger] part_fails(ps, j),
            holds_parts(questions@, ps.take(it.index() as int)),
            forall|k: Seq<char>| has_key(questions@, k) ==> exists|j: int| 0 <= j < it.index() && #[trigger] ps[j].0 == k,
    {
        let ghost i = it.index();
        let (id, composed) = part;
        assert(id@ == ps[i].0 && composed == ps[i].1);
        let question = match composed {
            Err(e) => {
                proof {
                    assert(part_fails(ps, i));
                    assert(first_compose_failure(ps) == Some(i)) by {
                        let c = choose|c: int| 0 <= c < ps.len() && #[trigger] part_fails(ps, c) && forall|j: int| 0 <= j < c ==> !#[trigger] part_fails(ps, j);
                        if c < i {
                        } else if c > i {
                        }
                    }
                }
                return Err(e);
            },
            Ok(q) => q,
        };
        if questions.contains_key(id.as_str()) {
            proof {
                let j = choose|j: int| 0 <= j < i && #[trigger] ps[j].0 == id@;
                assert(ps[j].0 == ps[i].0);
                assert(part_fails(ps, i));
                assert(first_compose_failure(ps) == Some(i)) by {
                    let c = choose|c: int| 0 <= c < ps.len() && #[trigger] part_fails(ps, c) && forall|j: int| 0 <= j < c ==> !#[trigger] part_fails(ps, j);
                    if c < i {
                    } else if c > i {
                    }
                }
            }
            return Err(JevError::Schema(concat3("duplicate question id `", id.as_str(), "`")));
        }
        let ghost before = questions@;
        questions.insert(id, question);
        proof {
            assert(!part_fails(ps, i)) by {
                if exists|j: int| 0 <= j < i && #[trigger] ps[j].0 == ps[i].0 {
                    let j = choose|j: int| 0 <= j < i && #[trigger] ps[j].0 == ps[i].0;
                    assert(ps.take(i)[j] == ps[j]);
                    assert(has_key(before, ps[j].0));
                }
            }
            let pt = ps.take(i + 1);
            assert forall|a: int| 0 <= a < pt.len() implies (pt[a].1 matches Ok(q) && lookup(questions@, #[trigger] pt[a].0) == Some(q)) by {
                if a < i {
                    assert(pt[a] == ps.take(i)[a]);
                    assert(ps.take(i)[a].0 != ps[i].0) by {
                        if ps.take(i)[a].0 == ps[i].0 {
                            assert(ps[a].0 == ps[i].0);
                        }
                    }
                }
            }
            assert forall|k: Seq<char>| has_key(questions@, k) implies exists|j: int| 0 <= j < i + 1 && #[trigger] ps[j].0 == k by {
                if k != ps[i].0 {
                    assert(lookup(questions@, k) == lookup(before, k));
                    assert(has_key(before, k));
                }
            }
        }
    }
    proof {
        assert(ps.take(n as int) =~= ps);
        assert(first_compose_failure(ps) is None);
    }
    proof {
        use_type_invariant(&questions);
    }
    match validate_state_refs(&questions, state_keys) {
        Ok(()) => Ok(questions),
        Err(e) => Err(e),
    }
}

} // verus!
