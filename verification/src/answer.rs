//! Answer validation: every answer of a response is checked against the
//! question that asked it, in the order the strictness contract fixes.
//! The probabilities themselves are floating-point numbers that this
//! library does not hold; the caller that holds them hands in, per
//! answer, which of them passed their numeric checks (an
//! [`AnswerDigest`]), and the library decides which error, if any, the
//! response earns.

use vstd::prelude::*;

use crate::error::{ErrorView, JevError, JevResult};
use crate::keyed::{has_key, keys_of, lookup, strictly_sorted, KeyedMap};
use crate::text::{concat, concat3, decimal_string, decimal_text, lemma_decimal_text_parses, lemma_lex_irreflexive, owned, parse_unsigned, parse_unsigned_str, str_equal};
use crate::wire::{question_kind_name, WireQuestion};

verus! {

/// The primitive an answer carries.
#[derive(Clone, Copy, Debug, PartialEq, Eq, Structural)]
pub enum AnswerKind {
    Choice,
    Score,
    Noul,
}

/// The wire name of an answer kind.
pub open spec fn answer_kind_name(k: AnswerKind) -> Seq<char> {
    match k {
        AnswerKind::Choice => "choice"@,
        AnswerKind::Score => "score"@,
        AnswerKind::Noul => "noul"@,
    }
}

impl AnswerKind {
    /// The primitive's wire name.
    pub fn kind_str(&self) -> (r: &'static str)
        ensures
            r@ == answer_kind_name(*self),
    {
        match self {
            AnswerKind::Choice => "choice",
            AnswerKind::Score => "score",
            AnswerKind::Noul => "noul",
        }
    }
}

/// Token usage for a call.
#[derive(Clone, Copy, Debug, PartialEq, Eq, Structural)]
pub struct Usage {
    /// Billable input tokens.
    pub input_tokens: u64,
    /// Output tokens (currently free).
    pub output_tokens: u64,
}

impl Usage {
    /// The usage a response reported.
    pub fn from_wire(usage: crate::wire::WireUsage) -> (u: Usage)
        ensures
            u.input_tokens == usage.input_tokens,
            u.output_tokens == usage.output_tokens,
    {
        Usage { input_tokens: usage.input_tokens, output_tokens: usage.output_tokens }
    }
}

/// One wire answer as far as validation reads it. Probabilities are
/// keyed by option or level key (in key order), each flagged with whether
/// its value lies in [0, 1]; `normalized` says whether they sum to 1
/// within tolerance. A score's `score_ceiling` is the score rounded up
/// when it is finite and not negative, and `None` otherwise.
#[derive(Clone, Debug)]
pub enum AnswerDigest {
    /// A noul answer: whether P(yes) lies in [0, 1].
    Noul { in_range: bool },
    /// A choice answer.
    Choice {
        choice: String,
        probabilities: KeyedMap<bool>,
        normalized: bool,
        confidence_in_range: bool,
    },
    /// A score answer.
    Score {
        legend: KeyedMap<String>,
        probabilities: KeyedMap<bool>,
        score_ceiling: Option<u64>,
        normalized: bool,
        confidence_in_range: bool,
    },
}

/// The kind of a digested answer.
pub open spec fn digest_kind(a: AnswerDigest) -> AnswerKind {
    match a {
        AnswerDigest::Noul { .. } => AnswerKind::Noul,
        AnswerDigest::Choice { .. } => AnswerKind::Choice,
        AnswerDigest::Score { .. } => AnswerKind::Score,
    }
}

impl AnswerDigest {
    /// The answer's primitive.
    pub fn kind(&self) -> (k: AnswerKind)
        ensures
            k == digest_kind(*self),
    {
        match self {
            AnswerDigest::Noul { .. } => AnswerKind::Noul,
            AnswerDigest::Choice { .. } => AnswerKind::Choice,
            AnswerDigest::Score { .. } => AnswerKind::Score,
        }
    }
}

/// Why a response is rejected. Faults about values the library does not
/// hold name the answer (and key) so that the caller can report the value.
#[derive(Clone, Debug, PartialEq, Eq)]
pub enum ResponseFault {
    /// A rejection fully described by the error.
    Rejected(JevError),
    /// The answer's probabilities do not sum to 1 within tolerance.
    NotNormalized { id: String },
    /// The probability under `key` lies outside [0, 1].
    ProbabilityOutOfRange { id: String, key: String },
    /// The answer's confidence lies outside [0, 1].
    ConfidenceOutOfRange { id: String },
    /// The noul answer's P(yes) lies outside [0, 1].
    NoulOutOfRange { id: String },
    /// The score is not finite or lies outside the `levels`-level rubric.
    ScoreOutOfRange { id: String, levels: usize },
}

/// A [`ResponseFault`] with its strings read as character sequences.
pub enum FaultView {
    Rejected(ErrorView),
    NotNormalized(Seq<char>),
    ProbabilityOutOfRange(Seq<char>, Seq<char>),
    ConfidenceOutOfRange(Seq<char>),
    NoulOutOfRange(Seq<char>),
    ScoreOutOfRange(Seq<char>, nat),
}

impl View for ResponseFault {
    type V = FaultView;

    open spec fn view(&self) -> FaultView {
        match self {
            ResponseFault::Rejected(e) => FaultView::Rejected(e@),
            ResponseFault::NotNormalized { id } => FaultView::NotNormalized(id@),
            ResponseFault::ProbabilityOutOfRange { id, key } => FaultView::ProbabilityOutOfRange(id@, key@),
            ResponseFault::ConfidenceOutOfRange { id } => FaultView::ConfidenceOutOfRange(id@),
            ResponseFault::NoulOutOfRange { id } => FaultView::NoulOutOfRange(id@),
            ResponseFault::ScoreOutOfRange { id, levels } => FaultView::ScoreOutOfRange(id@, *levels as nat),
        }
    }
}

/// A malformed-answer fault.
pub open spec fn malformed(id: Seq<char>, detail: Seq<char>) -> FaultView {
    FaultView::Rejected(ErrorView::MalformedAnswer { id, detail })
}

/// The first key of `a` (in order) that `b` does not carry.
pub open spec fn first_key_missing_from<A, B>(a: Seq<(Seq<char>, A)>, b: Seq<(Seq<char>, B)>) -> Option<Seq<char>>
    decreases a.len(),
{
    if a.len() == 0 {
        None
    } else if !has_key(b, a[0].0) {
        Some(a[0].0)
    } else {
        first_key_missing_from(a.drop_first(), b)
    }
}

/// The first key (in order) whose flag is false.
pub open spec fn first_unflagged(p: Seq<(Seq<char>, bool)>) -> Option<Seq<char>>
    decreases p.len(),
{
    if p.len() == 0 {
        None
    } else if !p[0].1 {
        Some(p[0].0)
    } else {
        first_unflagged(p.drop_first())
    }
}

/// Detail for an option the answer gave no probability.
pub open spec fn missing_option_detail(option: Seq<char>) -> Seq<char> {
    "missing probability for option `"@ + option + "`"@
}

/// Detail for a missing rubric level.
pub open spec fn missing_level_detail(level: nat) -> Seq<char> {
    "missing probability for level "@ + decimal_text(level)
}

/// Detail for disagreeing legend and probability keys.
pub open spec fn legend_detail() -> Seq<char> {
    "legend and probabilities keys disagree"@
}

/// What is wrong with one level key of a score answer on a `levels`-level
/// rubric: not a number, outside the rubric, or not the canonical
/// spelling of its level (`00` for `0`).
pub open spec fn level_key_fault(key: Seq<char>, levels: nat) -> Option<Seq<char>> {
    match parse_unsigned(key, usize::MAX as nat) {
        None => Some("non-numeric level key `"@ + key + "`"@),
        Some(l) => if l >= levels {
            Some("level key `"@ + key + "` outside the "@ + decimal_text(levels) + "-level rubric"@)
        } else if key != decimal_text(l) {
            Some("non-canonical level key `"@ + key + "` (expected `"@ + decimal_text(l) + "`)"@)
        } else {
            None
        },
    }
}

/// The first level key fault, keys in order.
pub open spec fn first_level_key_fault(p: Seq<(Seq<char>, bool)>, levels: nat) -> Option<Seq<char>>
    decreases p.len(),
{
    if p.len() == 0 {
        None
    } else {
        match level_key_fault(p[0].0, levels) {
            Some(d) => Some(d),
            None => first_level_key_fault(p.drop_first(), levels),
        }
    }
}

/// The first level in `from..levels` whose canonical key is missing.
pub open spec fn first_missing_level(p: Seq<(Seq<char>, bool)>, levels: nat, from: nat) -> Option<nat>
    decreases levels - from,
{
    if from >= levels {
        None
    } else if !has_key(p, decimal_text(from)) {
        Some(from)
    } else {
        first_missing_level(p, levels, from + 1)
    }
}

/// Whether legend and probabilities carry the same keys.
pub open spec fn legend_agrees(legend: Seq<(Seq<char>, String)>, p: Seq<(Seq<char>, bool)>) -> bool {
    legend.len() == p.len() && forall|i: int| 0 <= i < legend.len() ==> has_key(p, #[trigger] legend[i].0)
}

/// Whether a score lies in the rubric: finite, at least 0, at most the top
/// level (`levels - 1`, and any finite score when that exceeds `u32`).
pub open spec fn score_in_rubric(ceiling: Option<u64>, levels: nat) -> bool {
    let top: nat = if levels == 0 { 0 } else { (levels - 1) as nat };
    ceiling matches Some(c) && (top > u32::MAX || c <= top)
}

/// The fault of a choice answer against the question's options, checks
/// in order: the chosen option, then every probability key, then every
/// option's presence, then normalization, each value's range, and the
/// confidence's range.
pub open spec fn choice_fault(
    id: Seq<char>,
    options: Seq<(Seq<char>, Option<crate::wire::Instructions>)>,
    choice: Seq<char>,
    p: Seq<(Seq<char>, bool)>,
    normalized: bool,
    confidence_in_range: bool,
) -> Option<FaultView> {
    if !has_key(options, choice) {
        Some(FaultView::Rejected(ErrorView::UnknownOption { option: choice, id }))
    } else if first_key_missing_from(p, options) is Some {
        Some(FaultView::Rejected(ErrorView::UnknownOption { option: first_key_missing_from(p, options)->0, id }))
    } else if first_key_missing_from(options, p) is Some {
        Some(malformed(id, missing_option_detail(first_key_missing_from(options, p)->0)))
    } else if !normalized {
        Some(FaultView::NotNormalized(id))
    } else if first_unflagged(p) is Some {
        Some(FaultView::ProbabilityOutOfRange(id, first_unflagged(p)->0))
    } else if !confidence_in_range {
        Some(FaultView::ConfidenceOutOfRange(id))
    } else {
        None
    }
}

/// The fault of a score answer against a `levels`-level rubric, checks in
/// order: legend agreement, every level key, every level's presence, the
/// score's range, normalization, each value's range, the confidence's.
pub open spec fn score_fault(
    id: Seq<char>,
    levels: nat,
    legend: Seq<(Seq<char>, String)>,
    p: Seq<(Seq<char>, bool)>,
    ceiling: Option<u64>,
    normalized: bool,
    confidence_in_range: bool,
) -> Option<FaultView> {
    if !legend_agrees(legend, p) {
        Some(malformed(id, legend_detail()))
    } else if first_level_key_fault(p, levels) is Some {
        Some(malformed(id, first_level_key_fault(p, levels)->0))
    } else if first_missing_level(p, levels, 0) is Some {
        Some(malformed(id, missing_level_detail(first_missing_level(p, levels, 0)->0)))
    } else if !score_in_rubric(ceiling, levels) {
        Some(FaultView::ScoreOutOfRange(id, levels))
    } else if !normalized {
        Some(FaultView::NotNormalized(id))
    } else if first_unflagged(p) is Some {
        Some(FaultView::ProbabilityOutOfRange(id, first_unflagged(p)->0))
    } else if !confidence_in_range {
        Some(FaultView::ConfidenceOutOfRange(id))
    } else {
        None
    }
}

/// The fault of one answer against the question that asked it: its own
/// checks when the primitives agree, a type mismatch otherwise.
pub open spec fn answer_fault(id: Seq<char>, q: WireQuestion, a: AnswerDigest) -> Option<FaultView> {
    match (q, a) {
        (WireQuestion::Noul { .. }, AnswerDigest::Noul { in_range }) => if in_range {
            None
        } else {
            Some(FaultView::NoulOutOfRange(id))
        },
        (WireQuestion::Choice { criteria, .. }, AnswerDigest::Choice { choice, probabilities, normalized, confidence_in_range }) =>
            choice_fault(id, criteria@, choice@, probabilities@, normalized, confidence_in_range),
        (WireQuestion::Score { criteria, .. }, AnswerDigest::Score { legend, probabilities, score_ceiling, normalized, confidence_in_range }) =>
            score_fault(id, criteria@.len(), legend@, probabilities@, score_ceiling, normalized, confidence_in_range),
        _ => Some(FaultView::Rejected(ErrorView::AnswerTypeMismatch {
            id,
            expected: question_kind_name(q),
            got: answer_kind_name(digest_kind(a)),
        })),
    }
}

/// The first fault among the answers, in id order: an answer for a
/// question that was not asked, or the answer's own fault.
pub open spec fn first_answer_fault(questions: Seq<(Seq<char>, WireQuestion)>, answers: Seq<(Seq<char>, AnswerDigest)>) -> Option<FaultView>
    decreases answers.len(),
{
    if answers.len() == 0 {
        None
    } else if !has_key(questions, answers[0].0) {
        Some(FaultView::Rejected(ErrorView::UnknownQuestion { id: answers[0].0 }))
    } else {
        match answer_fault(answers[0].0, lookup(questions, answers[0].0)->0, answers[0].1) {
            Some(f) => Some(f),
            None => first_answer_fault(questions, answers.drop_first()),
        }
    }
}

/// The fault of a whole response: the first answer fault, else the first
/// asked question (in id order) that went unanswered.
pub open spec fn response_fault(questions: Seq<(Seq<char>, WireQuestion)>, answers: Seq<(Seq<char>, AnswerDigest)>) -> Option<FaultView> {
    match first_answer_fault(questions, answers) {
        Some(f) => Some(f),
        None => match first_key_missing_from(questions, answers) {
            Some(id) => Some(FaultView::Rejected(ErrorView::MissingAnswer { id })),
            None => None,
        },
    }
}

/// The first key of `a` (in order) that `b` does not carry.
pub fn first_key_missing<A, B>(a: &KeyedMap<A>, b: &KeyedMap<B>) -> (r: Option<String>)
    ensures
        match first_key_missing_from(a@, b@) {
            Some(k) => r matches Some(s) && s@ == k,
            None => r is None,
        },
{
    let entries = a.entries();
    let ghost av = a@;
    let mut i: usize = 0;
    assert(av.skip(0) =~= av);
    while i < entries.len()
        invariant
            i <= entries@.len(),
            entries@.len() == av.len(),
            av == a@,
            forall|j: int| 0 <= j < entries@.len() ==> (#[trigger] entries@[j]).0@ == av[j].0,
            first_key_missing_from(av, b@) == first_key_missing_from(av.skip(i as int), b@),
        decreases entries.len() - i,
    {
        assert(av.skip(i as int)[0] == av[i as int]);
        assert(av.skip(i as int).drop_first() =~= av.skip(i + 1));
        if !b.contains_key(entries[i].0.as_str()) {
            return Some(entries[i].0.clone());
        }
        i += 1;
    }
    assert(av.skip(i as int) =~= Seq::<(Seq<char>, A)>::empty());
    None
}

/// The first key (in order) whose flag is false.
fn first_false(p: &KeyedMap<bool>) -> (r: Option<String>)
    ensures
        match first_unflagged(p@) {
            Some(k) => r matches Some(s) && s@ == k,
            None => r is None,
        },
{
    let entries = p.entries();
    let ghost pv = p@;
    let mut i: usize = 0;
    assert(pv.skip(0) =~= pv);
    while i < entries.len()
        invariant
            i <= entries@.len(),
            entries@.len() == pv.len(),
            pv == p@,
            forall|j: int| 0 <= j < entries@.len() ==> (#[trigger] entries@[j]).0@ == pv[j].0 && entries@[j].1 == pv[j].1,
            first_unflagged(pv) == first_unflagged(pv.skip(i as int)),
        decreases entries.len() - i,
    {
        assert(pv.skip(i as int)[0] == pv[i as int]);
        assert(pv.skip(i as int).drop_first() =~= pv.skip(i + 1));
        if !entries[i].1 {
            return Some(entries[i].0.clone());
        }
        i += 1;
    }
    assert(pv.skip(i as int) =~= Seq::<(Seq<char>, bool)>::empty());
    None
}

/// What is wrong with one level key, if anything.
fn level_key_problem(key: &str, levels: usize) -> (r: Option<String>)
    ensures
        match level_key_fault(key@, levels as nat) {
            Some(d) => r matches Some(s) && s@ == d,
            None => r is None,
        },
{
    match parse_unsigned_str(key, usize::MAX) {
        None => Some(concat3("non-numeric level key `", key, "`")),
        Some(level) => {
            if level >= levels {
                let a = concat3("level key `", key, "` outside the ");
                let b = concat(a.as_str(), decimal_string(levels).as_str());
                Some(concat(b.as_str(), "-level rubric"))
            } else {
                let canonical = decimal_string(level);
                if !str_equal(key, canonical.as_str()) {
                    let a = concat3("non-canonical level key `", key, "` (expected `");
                    Some(concat3(a.as_str(), canonical.as_str(), "`)"))
                } else {
                    None
                }
            }
        },
    }
}

fn first_level_key_problem(p: &KeyedMap<bool>, levels: usize) -> (r: Option<String>)
    ensures
        match first_level_key_fault(p@, levels as nat) {
            Some(d) => r matches Some(s) && s@ == d,
            None => r is None,
        },
{
    let entries = p.entries();
    let ghost pv = p@;
    let mut i: usize = 0;
    assert(pv.skip(0) =~= pv);
    while i < entries.len()
        invariant
            i <= entries@.len(),
            entries@.len() == pv.len(),
            pv == p@,
            forall|j: int| 0 <= j < entries@.len() ==> (#[trigger] entries@[j]).0@ == pv[j].0,
            first_level_key_fault(pv, levels as nat) == first_level_key_fault(pv.skip(i as int), levels as nat),
        decreases entries.len() - i,
    {
        assert(pv.skip(i as int)[0] == pv[i as int]);
        assert(pv.skip(i as int).drop_first() =~= pv.skip(i + 1));
        let problem = level_key_problem(entries[i].0.as_str(), levels);
        if problem.is_some() {
            return problem;
        }
        i += 1;
    }
    assert(pv.skip(i as int) =~= Seq::<(Seq<char>, bool)>::empty());
    None
}

fn first_missing_level_of(p: &KeyedMap<bool>, levels: usize) -> (r: Option<usize>)
    ensures
        match r {
            Some(v) => first_missing_level(p@, levels as nat, 0) == Some(v as nat),
            None => first_missing_level(p@, levels as nat, 0) is None,
        },
{
    let mut level: usize = 0;
    while level < levels
        invariant
            level <= levels,
            first_missing_level(p@, levels as nat, 0) == first_missing_level(p@, levels as nat, level as nat),
        decreases levels - level,
    {
        let key = decimal_string(level);
        if !p.contains_key(key.as_str()) {
            return Some(level);
        }
        level += 1;
    }
    None
}

fn legend_matches(legend: &KeyedMap<String>, p: &KeyedMap<bool>) -> (b: bool)
    ensures
        b == legend_agrees(legend@, p@),
{
    if legend.len() != p.len() {
        return false;
    }
    let entries = legend.entries();
    let mut i: usize = 0;
    while i < entries.len()
        invariant
            i <= entries@.len(),
            entries@.len() == legend@.len(),
            legend@.len() == p@.len(),
            forall|j: int| 0 <= j < entries@.len() ==> (#[trigger] entries@[j]).0@ == legend@[j].0,
            forall|j: int| 0 <= j < i ==> has_key(p@, #[trigger] legend@[j].0),
        decreases entries.len() - i,
    {
        if !p.contains_key(entries[i].0.as_str()) {
            return false;
        }
        i += 1;
    }
    true
}

/// Whether the score (by its ceiling) lies in a `levels`-level rubric.
fn score_within(ceiling: Option<u64>, levels: usize) -> (b: bool)
    ensures
        b == score_in_rubric(ceiling, levels as nat),
{
    let top: usize = if levels == 0 { 0 } else { levels - 1 };
    match ceiling {
        None => false,
        Some(c) => {
            if top > 4294967295usize {
                true
            } else {
                (c as u128) <= (top as u128)
            }
        },
    }
}

/// Checks one choice answer against the question's options.
fn check_choice(
    id: &String,
    options: &KeyedMap<Option<crate::wire::Instructions>>,
    choice: &String,
    p: &KeyedMap<bool>,
    normalized: bool,
    confidence_in_range: bool,
) -> (r: Result<(), ResponseFault>)
    ensures
        match choice_fault(id@, options@, choice@, p@, normalized, confidence_in_range) {
            Some(f) => r matches Err(e) && e@ == f,
            None => r is Ok,
        },
{
    if !options.contains_key(choice.as_str()) {
        return Err(ResponseFault::Rejected(JevError::UnknownOption { option: choice.clone(), id: id.clone() }));
    }
    if let Some(key) = first_key_missing(p, options) {
        return Err(ResponseFault::Rejected(JevError::UnknownOption { option: key, id: id.clone() }));
    }
    if let Some(option) = first_key_missing(options, p) {
        return Err(ResponseFault::Rejected(JevError::MalformedAnswer {
            id: id.clone(),
            detail: concat3("missing probability for option `", option.as_str(), "`"),
        }));
    }
    if !normalized {
        return Err(ResponseFault::NotNormalized { id: id.clone() });
    }
    if let Some(key) = first_false(p) {
        return Err(ResponseFault::ProbabilityOutOfRange { id: id.clone(), key });
    }
    if !confidence_in_range {
        return Err(ResponseFault::ConfidenceOutOfRange { id: id.clone() });
    }
    Ok(())
}

/// Checks one score answer against a `levels`-level rubric.
fn check_score(
    id: &String,
    levels: usize,
    legend: &KeyedMap<String>,
    p: &KeyedMap<bool>,
    ceiling: Option<u64>,
    normalized: bool,
    confidence_in_range: bool,
) -> (r: Result<(), ResponseFault>)
    ensures
        match score_fault(id@, levels as nat, legend@, p@, ceiling, normalized, confidence_in_range) {
            Some(f) => r matches Err(e) && e@ == f,
            None => r is Ok,
        },
{
    if !legend_matches(legend, p) {
        return Err(ResponseFault::Rejected(JevError::MalformedAnswer {
            id: id.clone(),
            detail: owned("legend and probabilities keys disagree"),
        }));
    }
    if let Some(detail) = first_level_key_problem(p, levels) {
        return Err(ResponseFault::Rejected(JevError::MalformedAnswer { id: id.clone(), detail }));
    }
    if let Some(level) = first_missing_level_of(p, levels) {
        return Err(ResponseFault::Rejected(JevError::MalformedAnswer {
            id: id.clone(),
            detail: concat("missing probability for level ", decimal_string(level).as_str()),
        }));
    }
    if !score_within(ceiling, levels) {
        return Err(ResponseFault::ScoreOutOfRange { id: id.clone(), levels });
    }
    if !normalized {
        return Err(ResponseFault::NotNormalized { id: id.clone() });
    }
    if let Some(key) = first_false(p) {
        return Err(ResponseFault::ProbabilityOutOfRange { id: id.clone(), key });
    }
    if !confidence_in_range {
        return Err(ResponseFault::ConfidenceOutOfRange { id: id.clone() });
    }
    Ok(())
}

/// Checks one answer against the question that asked it.
pub fn check_answer(id: &String, question: &WireQuestion, answer: &AnswerDigest) -> (r: Result<(), ResponseFault>)
    ensures
        match answer_fault(id@, *question, *answer) {
            Some(f) => r matches Err(e) && e@ == f,
            None => r is Ok,
        },
{
    match (question, answer) {
        (WireQuestion::Noul { .. }, AnswerDigest::Noul { in_range }) => {
            if *in_range {
                Ok(())
            } else {
                Err(ResponseFault::NoulOutOfRange { id: id.clone() })
            }
        },
        (WireQuestion::Choice { criteria, .. }, AnswerDigest::Choice { choice, probabilities, normalized, confidence_in_range }) =>
            check_choice(id, criteria, choice, probabilities, *normalized, *confidence_in_range),
        (WireQuestion::Score { criteria, .. }, AnswerDigest::Score { legend, probabilities, score_ceiling, normalized, confidence_in_range }) =>
            check_score(id, criteria.len(), legend, probabilities, *score_ceiling, *normalized, *confidence_in_range),
        _ => Err(ResponseFault::Rejected(JevError::AnswerTypeMismatch {
            id: id.clone(),
            expected: question.kind_str(),
            got: answer.kind().kind_str(),
        })),
    }
}

/// Validates a response against the questions that were asked: every
/// answer (in id order) must answer an asked question and pass its own
/// checks; then every asked question (in id order) must have an answer.
/// The first fault found is returned.
pub fn check_response(questions: &KeyedMap<WireQuestion>, answers: &KeyedMap<AnswerDigest>) -> (r: Result<(), ResponseFault>)
    ensures
        match response_fault(questions@, answers@) {
            Some(f) => r matches Err(e) && e@ == f,
            None => r is Ok,
        },
{
    let entries = answers.entries();
    let ghost av = answers@;
    let mut i: usize = 0;
    assert(av.skip(0) =~= av);
    while i < entries.len()
        invariant
            i <= entries@.len(),
            entries@.len() == av.len(),
            av == answers@,
            forall|j: int| 0 <= j < entries@.len() ==> (#[trigger] entries@[j]).0@ == av[j].0 && entries@[j].1 == av[j].1,
            first_answer_fault(questions@, av) == first_answer_fault(questions@, av.skip(i as int)),
        decreases entries.len() - i,
    {
        assert(av.skip(i as int)[0] == av[i as int]);
        assert(av.skip(i as int).drop_first() =~= av.skip(i + 1));
        let id = &entries[i].0;
        match questions.get(id.as_str()) {
            None => {
                return Err(ResponseFault::Rejected(JevError::UnknownQuestion { id: id.clone() }));
            },
            Some(question) => {
                let checked = check_answer(id, question, &entries[i].1);
                if checked.is_err() {
                    return checked;
                }
            },
        }
        i += 1;
    }
    assert(av.skip(i as int) =~= Seq::<(Seq<char>, AnswerDigest)>::empty());
    match first_key_missing(questions, answers) {
        Some(id) => Err(ResponseFault::Rejected(JevError::MissingAnswer { id })),
        None => Ok(()),
    }
}

proof fn lemma_no_missing_key<A, B>(a: Seq<(Seq<char>, A)>, b: Seq<(Seq<char>, B)>)
    requires
        first_key_missing_from(a, b) is None,
    ensures
        forall|i: int| 0 <= i < a.len() ==> has_key(b, #[trigger] a[i].0),
    decreases a.len(),
{
    if a.len() > 0 {
        lemma_no_missing_key(a.drop_first(), b);
        assert forall|i: int| 0 <= i < a.len() implies has_key(b, #[trigger] a[i].0) by {
            if i > 0 {
                assert(a[i] == a.drop_first()[i - 1]);
            }
        }
    }
}

proof fn lemma_all_flagged(p: Seq<(Seq<char>, bool)>)
    requires
        first_unflagged(p) is None,
    ensures
        forall|i: int| 0 <= i < p.len() ==> #[trigger] p[i].1,
    decreases p.len(),
{
    if p.len() > 0 {
        lemma_all_flagged(p.drop_first());
        assert forall|i: int| 0 <= i < p.len() implies #[trigger] p[i].1 by {
            if i > 0 {
                assert(p[i] == p.drop_first()[i - 1]);
            }
        }
    }
}

proof fn lemma_level_keys_canonical(p: Seq<(Seq<char>, bool)>, levels: nat)
    requires
        first_level_key_fault(p, levels) is None,
    ensures
        forall|i: int| 0 <= i < p.len() ==> #[trigger] level_key_fault(p[i].0, levels) is None,
    decreases p.len(),
{
    if p.len() > 0 {
        lemma_level_keys_canonical(p.drop_first(), levels);
        assert forall|i: int| 0 <= i < p.len() implies #[trigger] level_key_fault(p[i].0, levels) is None by {
            if i > 0 {
                assert(p[i] == p.drop_first()[i - 1]);
            }
        }
    }
}

proof fn lemma_levels_present(p: Seq<(Seq<char>, bool)>, levels: nat, from: nat)
    requires
        first_missing_level(p, levels, from) is None,
    ensures
        forall|l: nat| from <= l < levels ==> has_key(p, #[trigger] decimal_text(l)),
    decreases levels - from,
{
    if from < levels {
        lemma_levels_present(p, levels, from + 1);
    }
}

/// An accepted choice answer is strict: the chosen option is one of the
/// question's options, the distribution names exactly the question's
/// options (zero-probability ones included), sums to 1 within tolerance,
/// every probability and the confidence lie in [0, 1].
pub proof fn lemma_accepted_choice_is_strict(
    id: Seq<char>,
    options: Seq<(Seq<char>, Option<crate::wire::Instructions>)>,
    choice: Seq<char>,
    p: Seq<(Seq<char>, bool)>,
    normalized: bool,
    confidence_in_range: bool,
)
    requires
        choice_fault(id, options, choice, p, normalized, confidence_in_range) is None,
    ensures
        has_key(options, choice),
        forall|k: Seq<char>| has_key(p, k) <==> has_key(options, k),
        normalized,
        forall|i: int| 0 <= i < p.len() ==> #[trigger] p[i].1,
        confidence_in_range,
{
    lemma_no_missing_key(p, options);
    lemma_no_missing_key(options, p);
    lemma_all_flagged(p);
    assert forall|k: Seq<char>| has_key(p, k) <==> has_key(options, k) by {
        if has_key(p, k) {
            let i = choose|i: int| 0 <= i < p.len() && #[trigger] p[i].0 == k;
            assert(has_key(options, p[i].0));
        }
        if has_key(options, k) {
            let i = choose|i: int| 0 <= i < options.len() && #[trigger] options[i].0 == k;
            assert(has_key(p, options[i].0));
        }
    }
}

/// An accepted score answer is strict: its probability keys are exactly
/// the canonical keys `"0"`, `"1"`, ... of the rubric's levels (no alias
/// such as `"00"`), the legend names the same keys, the score lies in the
/// rubric, the distribution sums to 1 within tolerance, and every
/// probability and the confidence lie in [0, 1].
pub proof fn lemma_accepted_score_is_strict(
    id: Seq<char>,
    levels: nat,
    legend: Seq<(Seq<char>, String)>,
    p: Seq<(Seq<char>, bool)>,
    ceiling: Option<u64>,
    normalized: bool,
    confidence_in_range: bool,
)
    requires
        score_fault(id, levels, legend, p, ceiling, normalized, confidence_in_range) is None,
    ensures
        forall|k: Seq<char>| has_key(p, k) <==> exists|l: nat| l < levels && k == #[trigger] decimal_text(l),
        legend_agrees(legend, p),
        score_in_rubric(ceiling, levels),
        normalized,
        forall|i: int| 0 <= i < p.len() ==> #[trigger] p[i].1,
        confidence_in_range,
{
    lemma_level_keys_canonical(p, levels);
    lemma_levels_present(p, levels, 0);
    lemma_all_flagged(p);
    assert forall|k: Seq<char>| has_key(p, k) <==> exists|l: nat| l < levels && k == #[trigger] decimal_text(l) by {
        if has_key(p, k) {
            let i = choose|i: int| 0 <= i < p.len() && #[trigger] p[i].0 == k;
            assert(level_key_fault(p[i].0, levels) is None);
            let l = parse_unsigned(k, usize::MAX as nat)->0;
            assert(l < levels && k == decimal_text(l));
        }
        if exists|l: nat| l < levels && k == #[trigger] decimal_text(l) {
            let l = choose|l: nat| l < levels && k == #[trigger] decimal_text(l);
            assert(has_key(p, decimal_text(l)));
        }
    }
}

proof fn lemma_answers_pass(questions: Seq<(Seq<char>, WireQuestion)>, answers: Seq<(Seq<char>, AnswerDigest)>)
    requires
        first_answer_fault(questions, answers) is None,
    ensures
        forall|i: int| 0 <= i < answers.len() ==> has_key(questions, #[trigger] answers[i].0)
            && answer_fault(answers[i].0, lookup(questions, answers[i].0)->0, answers[i].1) is None,
    decreases answers.len(),
{
    if answers.len() > 0 {
        lemma_answers_pass(questions, answers.drop_first());
        assert forall|i: int| 0 <= i < answers.len() implies has_key(questions, #[trigger] answers[i].0)
            && answer_fault(answers[i].0, lookup(questions, answers[i].0)->0, answers[i].1) is None by {
            if i > 0 {
                assert(answers[i] == answers.drop_first()[i - 1]);
            }
        }
    }
}

/// An accepted response answers exactly the asked questions (no answer
/// missing, none extra), and every answer passes the checks of the
/// question that asked it, with the same primitive.
pub proof fn lemma_accepted_response_is_exact(questions: Seq<(Seq<char>, WireQuestion)>, answers: Seq<(Seq<char>, AnswerDigest)>)
    requires
        response_fault(questions, answers) is None,
    ensures
        forall|k: Seq<char>| has_key(questions, k) <==> has_key(answers, k),
        forall|i: int| 0 <= i < answers.len() ==> answer_fault(#[trigger] answers[i].0, lookup(questions, answers[i].0)->0, answers[i].1) is None,
        forall|i: int| 0 <= i < answers.len() ==> question_kind_name(lookup(questions, #[trigger] answers[i].0)->0) == answer_kind_name(digest_kind(answers[i].1)),
{
    lemma_answers_pass(questions, answers);
    lemma_no_missing_key(questions, answers);
    assert forall|k: Seq<char>| has_key(questions, k) <==> has_key(answers, k) by {
        if has_key(answers, k) {
            let i = choose|i: int| 0 <= i < answers.len() && #[trigger] answers[i].0 == k;
            assert(has_key(questions, answers[i].0));
        }
        if has_key(questions, k) {
            let i = choose|i: int| 0 <= i < questions.len() && #[trigger] questions[i].0 == k;
            assert(has_key(answers, questions[i].0));
        }
    }
    assert forall|i: int| 0 <= i < answers.len() implies question_kind_name(lookup(questions, #[trigger] answers[i].0)->0) == answer_kind_name(digest_kind(answers[i].1)) by {
        assert(answer_fault(answers[i].0, lookup(questions, answers[i].0)->0, answers[i].1) is None);
    }
}

proof fn lemma_keys_carried<A, B>(a: Seq<(Seq<char>, A)>, b: Seq<(Seq<char>, B)>)
    requires
        forall|i: int| 0 <= i < a.len() ==> has_key(b, #[trigger] a[i].0),
    ensures
        first_key_missing_from(a, b) is None,
    decreases a.len(),
{
    if a.len() > 0 {
        assert(has_key(b, a[0].0));
        assert forall|i: int| 0 <= i < a.drop_first().len() implies has_key(b, #[trigger] a.drop_first()[i].0) by {
            assert(a.drop_first()[i] == a[i + 1]);
        }
        lemma_keys_carried(a.drop_first(), b);
    }
}

proof fn lemma_flagged_all(p: Seq<(Seq<char>, bool)>)
    requires
        forall|i: int| 0 <= i < p.len() ==> #[trigger] p[i].1,
    ensures
        first_unflagged(p) is None,
    decreases p.len(),
{
    if p.len() > 0 {
        assert(p[0].1);
        assert forall|i: int| 0 <= i < p.drop_first().len() implies #[trigger] p.drop_first()[i].1 by {
            assert(p.drop_first()[i] == p[i + 1]);
        }
        lemma_flagged_all(p.drop_first());
    }
}

proof fn lemma_same_keys_carried<A, B>(a: Seq<(Seq<char>, A)>, b: Seq<(Seq<char>, B)>)
    requires
        forall|k: Seq<char>| has_key(a, k) <==> has_key(b, k),
    ensures
        first_key_missing_from(a, b) is None,
        first_key_missing_from(b, a) is None,
{
    assert forall|i: int| 0 <= i < a.len() implies has_key(b, #[trigger] a[i].0) by {
        assert(has_key(a, a[i].0));
    }
    assert forall|i: int| 0 <= i < b.len() implies has_key(a, #[trigger] b[i].0) by {
        assert(has_key(b, b[i].0));
    }
    lemma_keys_carried(a, b);
    lemma_keys_carried(b, a);
}

/// A strict choice answer is accepted: when the chosen option is one of
/// the question's options, the distribution names exactly those options,
/// sums to 1 within tolerance, and every probability and the confidence
/// lie in [0, 1], the answer has no fault.
pub proof fn lemma_strict_choice_is_accepted(
    id: Seq<char>,
    options: Seq<(Seq<char>, Option<crate::wire::Instructions>)>,
    choice: Seq<char>,
    p: Seq<(Seq<char>, bool)>,
    normalized: bool,
    confidence_in_range: bool,
)
    requires
        has_key(options, choice),
        forall|k: Seq<char>| has_key(p, k) <==> has_key(options, k),
        normalized,
        forall|i: int| 0 <= i < p.len() ==> #[trigger] p[i].1,
        confidence_in_range,
    ensures
        choice_fault(id, options, choice, p, normalized, confidence_in_range) is None,
{
    lemma_same_keys_carried(p, options);
    lemma_flagged_all(p);
}

proof fn lemma_level_keys_pass(p: Seq<(Seq<char>, bool)>, levels: nat)
    requires
        forall|i: int| 0 <= i < p.len() ==> #[trigger] level_key_fault(p[i].0, levels) is None,
    ensures
        first_level_key_fault(p, levels) is None,
    decreases p.len(),
{
    if p.len() > 0 {
        assert(level_key_fault(p[0].0, levels) is None);
        assert forall|i: int| 0 <= i < p.drop_first().len() implies #[trigger] level_key_fault(p.drop_first()[i].0, levels) is None by {
            assert(p.drop_first()[i] == p[i + 1]);
        }
        lemma_level_keys_pass(p.drop_first(), levels);
    }
}

proof fn lemma_levels_all_present(p: Seq<(Seq<char>, bool)>, levels: nat, from: nat)
    requires
        forall|l: nat| from <= l < levels ==> has_key(p, #[trigger] decimal_text(l)),
    ensures
        first_missing_level(p, levels, from) is None,
    decreases levels - from,
{
    if from < levels {
        assert(has_key(p, decimal_text(from)));
        lemma_levels_all_present(p, levels, from + 1);
    }
}

/// A strict score answer is accepted: when its probability keys are
/// exactly the canonical keys of the rubric's levels, the legend names
/// the same keys, the score lies in the rubric, the distribution sums to
/// 1 within tolerance, and every probability and the confidence lie in
/// [0, 1], the answer has no fault. (Level keys are read as `usize`, so
/// the rubric's levels are those a `usize` holds.)
pub proof fn lemma_strict_score_is_accepted(
    id: Seq<char>,
    levels: nat,
    legend: Seq<(Seq<char>, String)>,
    p: Seq<(Seq<char>, bool)>,
    ceiling: Option<u64>,
    normalized: bool,
    confidence_in_range: bool,
)
    requires
        levels <= usize::MAX as nat + 1,
        forall|k: Seq<char>| has_key(p, k) <==> exists|l: nat| l < levels && k == #[trigger] decimal_text(l),
        legend_agrees(legend, p),
        score_in_rubric(ceiling, levels),
        normalized,
        forall|i: int| 0 <= i < p.len() ==> #[trigger] p[i].1,
        confidence_in_range,
    ensures
        score_fault(id, levels, legend, p, ceiling, normalized, confidence_in_range) is None,
{
    assert forall|i: int| 0 <= i < p.len() implies #[trigger] level_key_fault(p[i].0, levels) is None by {
        assert(has_key(p, p[i].0));
        let l = choose|l: nat| l < levels && p[i].0 == #[trigger] decimal_text(l);
        lemma_decimal_text_parses(l, usize::MAX as nat);
    }
    lemma_level_keys_pass(p, levels);
    assert forall|l: nat| 0 <= l < levels implies has_key(p, #[trigger] decimal_text(l)) by {
        assert(exists|m: nat| m < levels && decimal_text(l) == #[trigger] decimal_text(m));
    }
    lemma_levels_all_present(p, levels, 0);
    lemma_flagged_all(p);
}

proof fn lemma_strict_keys_pass(levels: nat, legend: Seq<(Seq<char>, String)>, p: Seq<(Seq<char>, bool)>)
    requires
        levels <= usize::MAX as nat + 1,
        forall|k: Seq<char>| has_key(p, k) <==> exists|l: nat| l < levels && k == #[trigger] decimal_text(l),
        legend.len() == p.len(),
        forall|i: int| 0 <= i < legend.len() ==> has_key(p, #[trigger] legend[i].0),
    ensures
        legend_agrees(legend, p),
        first_level_key_fault(p, levels) is None,
        first_missing_level(p, levels, 0) is None,
{
    assert forall|i: int| 0 <= i < p.len() implies #[trigger] level_key_fault(p[i].0, levels) is None by {
        assert(has_key(p, p[i].0));
        let l = choose|l: nat| l < levels && p[i].0 == #[trigger] decimal_text(l);
        lemma_decimal_text_parses(l, usize::MAX as nat);
    }
    lemma_level_keys_pass(p, levels);
    assert forall|l: nat| 0 <= l < levels implies has_key(p, #[trigger] decimal_text(l)) by {
        assert(exists|m: nat| m < levels && decimal_text(l) == #[trigger] decimal_text(m));
    }
    lemma_levels_all_present(p, levels, 0);
}

/// The score range of an `n`-level rubric is `0..=n-1`: for a rubric of
/// at least one level (whose top level fits `u32`), an otherwise strict
/// score answer (canonical level keys `0`..`n-1`, a legend naming the
/// same keys, normalized, every probability and the confidence in
/// [0, 1]) is accepted exactly when its score is finite, non-negative and
/// at most `n - 1` (`c` is the score rounded up), and is rejected as out
/// of range otherwise.
pub proof fn lemma_score_range_is_the_rubric(
    id: Seq<char>,
    levels: nat,
    legend: Seq<(Seq<char>, String)>,
    p: Seq<(Seq<char>, bool)>,
    c: u64,
    normalized: bool,
    confidence_in_range: bool,
)
    requires
        1 <= levels,
        levels - 1 <= u32::MAX,
        forall|k: Seq<char>| has_key(p, k) <==> exists|l: nat| l < levels && k == #[trigger] decimal_text(l),
        legend.len() == p.len(),
        forall|i: int| 0 <= i < legend.len() ==> has_key(p, #[trigger] legend[i].0),
        normalized,
        forall|i: int| 0 <= i < p.len() ==> #[trigger] p[i].1,
        confidence_in_range,
    ensures
        c <= levels - 1 ==> score_fault(id, levels, legend, p, Some(c), normalized, confidence_in_range) is None,
        c > levels - 1 ==> score_fault(id, levels, legend, p, Some(c), normalized, confidence_in_range)
            == Some(FaultView::ScoreOutOfRange(id, levels)),
        score_fault(id, levels, legend, p, None, normalized, confidence_in_range) == Some(FaultView::ScoreOutOfRange(id, levels)),
{
    lemma_strict_keys_pass(levels, legend, p);
    lemma_flagged_all(p);
}

proof fn lemma_answers_all_pass(questions: Seq<(Seq<char>, WireQuestion)>, answers: Seq<(Seq<char>, AnswerDigest)>)
    requires
        forall|i: int| 0 <= i < answers.len() ==> has_key(questions, #[trigger] answers[i].0)
            && answer_fault(answers[i].0, lookup(questions, answers[i].0)->0, answers[i].1) is None,
    ensures
        first_answer_fault(questions, answers) is None,
    decreases answers.len(),
{
    if answers.len() > 0 {
        assert(has_key(questions, answers[0].0));
        assert forall|i: int| 0 <= i < answers.drop_first().len() implies has_key(questions, #[trigger] answers.drop_first()[i].0)
            && answer_fault(answers.drop_first()[i].0, lookup(questions, answers.drop_first()[i].0)->0, answers.drop_first()[i].1) is None by {
            assert(answers.drop_first()[i] == answers[i + 1]);
        }
        lemma_answers_all_pass(questions, answers.drop_first());
    }
}

/// A response that answers exactly the asked questions, each answer
/// passing the checks of the question that asked it, is accepted.
pub proof fn lemma_exact_response_is_accepted(questions: Seq<(Seq<char>, WireQuestion)>, answers: Seq<(Seq<char>, AnswerDigest)>)
    requires
        forall|k: Seq<char>| has_key(questions, k) <==> has_key(answers, k),
        forall|i: int| 0 <= i < answers.len() ==> answer_fault(#[trigger] answers[i].0, lookup(questions, answers[i].0)->0, answers[i].1) is None,
    ensures
        response_fault(questions, answers) is None,
{
    assert forall|i: int| 0 <= i < answers.len() implies has_key(questions, #[trigger] answers[i].0)
        && answer_fault(answers[i].0, lookup(questions, answers[i].0)->0, answers[i].1) is None by {
        assert(has_key(answers, answers[i].0));
    }
    lemma_answers_all_pass(questions, answers);
    lemma_same_keys_carried(questions, answers);
}

/// The first of `keys` that is not among `options`.
pub open spec fn first_not_among(keys: Seq<Seq<char>>, options: Seq<Seq<char>>) -> Option<Seq<char>>
    decreases keys.len(),
{
    if keys.len() == 0 {
        None
    } else if !options.contains(keys[0]) {
        Some(keys[0])
    } else {
        first_not_among(keys.drop_first(), options)
    }
}

fn index_among(items: &[&str], key: &str) -> (b: bool)
    ensures
        b == items@.map_values(|s: &str| s@).contains(key@),
{
    let ghost iv = items@.map_values(|s: &str| s@);
    let mut i: usize = 0;
    while i < items.len()
        invariant
            i <= items@.len(),
            iv == items@.map_values(|s: &str| s@),
            forall|j: int| 0 <= j < i ==> iv[j] != key@,
        decreases items.len() - i,
    {
        if str_equal(items[i], key) {
            assert(iv[i as int] == key@);
            return true;
        }
        i += 1;
    }
    false
}

fn string_among(items: &Vec<String>, key: &str) -> (b: bool)
    ensures
        b == items@.map_values(|s: String| s@).contains(key@),
{
    let ghost iv = items@.map_values(|s: String| s@);
    let mut i: usize = 0;
    while i < items.len()
        invariant
            i <= items@.len(),
            iv == items@.map_values(|s: String| s@),
            forall|j: int| 0 <= j < i ==> iv[j] != key@,
        decreases items.len() - i,
    {
        if str_equal(items[i].as_str(), key) {
            assert(iv[i as int] == key@);
            return true;
        }
        i += 1;
    }
    false
}

/// The rejection a typed choice decision earns from a validated choice
/// answer whose probability keys are `keys` (in key order): a key that is
/// not one of the enum's `options`, else an option without a probability.
pub open spec fn choice_decision_fault(id: Seq<char>, keys: Seq<Seq<char>>, options: Seq<Seq<char>>) -> Option<ErrorView> {
    match first_not_among(keys, options) {
        Some(k) => Some(ErrorView::UnknownOption { option: k, id }),
        None => match first_not_among(options, keys) {
            Some(o) => Some(ErrorView::MalformedAnswer { id, detail: missing_option_detail(o) }),
            None => None,
        },
    }
}

/// Checks a validated choice answer's probability keys against a choice
/// enum's option keys: no key outside the enum, no option left out.
pub fn check_choice_decision(id: &str, keys: &Vec<String>, options: &[&str]) -> (r: JevResult<()>)
    ensures
        match choice_decision_fault(id@, keys@.map_values(|s: String| s@), options@.map_values(|s: &str| s@)) {
            Some(e) => r matches Err(err) && err@ == e,
            None => r is Ok,
        },
{
    let ghost kv = keys@.map_values(|s: String| s@);
    let ghost ov = options@.map_values(|s: &str| s@);
    let mut i: usize = 0;
    assert(kv.skip(0) =~= kv);
    while i < keys.len()
        invariant
            i <= keys@.len(),
            kv == keys@.map_values(|s: String| s@),
            ov == options@.map_values(|s: &str| s@),
            first_not_among(kv, ov) == first_not_among(kv.skip(i as int), ov),
        decreases keys.len() - i,
    {
        assert(kv.skip(i as int)[0] == kv[i as int]);
        assert(kv.skip(i as int).drop_first() =~= kv.skip(i + 1));
        if !index_among(options, keys[i].as_str()) {
            return Err(JevError::UnknownOption { option: keys[i].clone(), id: owned(id) });
        }
        i += 1;
    }
    assert(kv.skip(i as int) =~= Seq::<Seq<char>>::empty());
    let mut j: usize = 0;
    assert(ov.skip(0) =~= ov);
    while j < options.len()
        invariant
            j <= options@.len(),
            kv == keys@.map_values(|s: String| s@),
            ov == options@.map_values(|s: &str| s@),
            first_not_among(kv, ov) is None,
            first_not_among(ov, kv) == first_not_among(ov.skip(j as int), kv),
        decreases options.len() - j,
    {
        assert(ov.skip(j as int)[0] == ov[j as int]);
        assert(ov.skip(j as int).drop_first() =~= ov.skip(j + 1));
        if !string_among(keys, options[j]) {
            return Err(JevError::MalformedAnswer {
                id: owned(id),
                detail: concat3("missing probability for option `", options[j], "`"),
            });
        }
        j += 1;
    }
    assert(ov.skip(j as int) =~= Seq::<Seq<char>>::empty());
    Ok(())
}

/// What is wrong with one level key of a typed score decision on a
/// `levels`-level rubric: not a `u8`, or outside the rubric.
pub open spec fn typed_level_fault(key: Seq<char>, levels: nat) -> Option<Seq<char>> {
    match parse_unsigned(key, 255) {
        None => Some("non-numeric level key `"@ + key + "`"@),
        Some(l) => if l >= levels {
            Some("level "@ + decimal_text(l) + " outside the "@ + decimal_text(levels) + "-level rubric"@)
        } else {
            None
        },
    }
}

/// The first typed level fault, keys in order.
pub open spec fn first_typed_level_fault(keys: Seq<Seq<char>>, levels: nat) -> Option<Seq<char>>
    decreases keys.len(),
{
    if keys.len() == 0 {
        None
    } else {
        match typed_level_fault(keys[0], levels) {
            Some(d) => Some(d),
            None => first_typed_level_fault(keys.drop_first(), levels),
        }
    }
}

/// The level each key names.
pub open spec fn levels_named(keys: Seq<Seq<char>>) -> Seq<nat> {
    keys.map_values(|k: Seq<char>| parse_unsigned(k, 255)->0)
}

/// Whether two keys name the same level.
pub open spec fn keys_alias(keys: Seq<Seq<char>>) -> bool {
    exists|i: int, j: int| 0 <= i < j < keys.len() && #[trigger] levels_named(keys)[i] == #[trigger] levels_named(keys)[j]
}

/// The first rubric level in `from..levels` that no key names.
pub open spec fn first_unnamed_level(keys: Seq<Seq<char>>, levels: nat, from: nat) -> Option<nat>
    decreases levels - from,
{
    if from >= levels {
        None
    } else if !levels_named(keys).contains(from) {
        Some(from)
    } else {
        first_unnamed_level(keys, levels, from + 1)
    }
}

/// Detail for level keys that alias one level.
pub open spec fn alias_detail() -> Seq<char> {
    "level keys alias the same level (e.g. `0` and `00`)"@
}

/// The rejection a typed score decision earns from a validated score
/// answer whose probability keys are `keys`: a key that is not a level
/// of the rubric, two keys naming one level, or a level without a key.
pub open spec fn score_decision_fault(id: Seq<char>, keys: Seq<Seq<char>>, levels: nat) -> Option<Seq<char>> {
    match first_typed_level_fault(keys, levels) {
        Some(d) => Some(d),
        None => if keys_alias(keys) {
            Some(alias_detail())
        } else {
            match first_unnamed_level(keys, levels, 0) {
                Some(l) => Some(missing_level_detail(l)),
                None => None,
            }
        },
    }
}

/// Reads the rubric level of each probability key of a validated score
/// answer (keys in order) for a typed `levels`-level score decision.
pub fn score_decision_levels(id: &str, keys: &Vec<String>, levels: u8) -> (r: JevResult<Vec<u8>>)
    ensures
        match score_decision_fault(id@, keys@.map_values(|s: String| s@), levels as nat) {
            Some(d) => r matches Err(JevError::MalformedAnswer { id: e, detail }) && e@ == id@ && detail@ == d,
            None => r matches Ok(ls) && ls@.len() == keys@.len()
                && forall|i: int| 0 <= i < ls@.len() ==> (#[trigger] ls@[i]) as nat == levels_named(keys@.map_values(|s: String| s@))[i],
        },
{
    let ghost kv = keys@.map_values(|s: String| s@);
    let mut found: Vec<u8> = Vec::new();
    let mut i: usize = 0;
    assert(kv.skip(0) =~= kv);
    while i < keys.len()
        invariant
            i <= keys@.len(),
            kv == keys@.map_values(|s: String| s@),
            found@.len() == i,
            forall|j: int| 0 <= j < i ==> (#[trigger] found@[j]) as nat == levels_named(kv)[j],
            forall|j: int| 0 <= j < i ==> (#[trigger] found@[j]) < levels,
            first_typed_level_fault(kv, levels as nat) == first_typed_level_fault(kv.skip(i as int), levels as nat),
        decreases keys.len() - i,
    {
        assert(kv.skip(i as int)[0] == kv[i as int]);
        assert(kv.skip(i as int).drop_first() =~= kv.skip(i + 1));
        let key = keys[i].as_str();
        match parse_unsigned_str(key, 255) {
            None => {
                return Err(JevError::MalformedAnswer { id: owned(id), detail: concat3("non-numeric level key `", key, "`") });
            },
            Some(level) => {
                if level >= levels as usize {
                    let a = concat("level ", decimal_string(level).as_str());
                    let b = concat3(a.as_str(), " outside the ", decimal_string(levels as usize).as_str());
                    return Err(JevError::MalformedAnswer { id: owned(id), detail: concat(b.as_str(), "-level rubric") });
                }
                found.push(level as u8);
            },
        }
        i += 1;
    }
    assert(kv.skip(i as int) =~= Seq::<Seq<char>>::empty());
    let mut a: usize = 0;
    while a < found.len()
        invariant
            a <= found@.len(),
            found@.len() == kv.len(),
            kv == keys@.map_values(|s: String| s@),
            first_typed_level_fault(kv, levels as nat) is None,
            forall|j: int| 0 <= j < found@.len() ==> (#[trigger] found@[j]) as nat == levels_named(kv)[j],
            forall|x: int, y: int| 0 <= x < y < a ==> found@[x] != found@[y],
        decreases found.len() - a,
    {
        let mut b: usize = 0;
        while b < a
            invariant
                b <= a < found@.len(),
                found@.len() == kv.len(),
                forall|j: int| 0 <= j < found@.len() ==> (#[trigger] found@[j]) as nat == levels_named(kv)[j],
                    kv == keys@.map_values(|s: String| s@),
                first_typed_level_fault(kv, levels as nat) is None,
                forall|x: int, y: int| 0 <= x < y < a ==> found@[x] != found@[y],
                forall|x: int| 0 <= x < b ==> found@[x] != found@[a as int],
            decreases a - b,
        {
            if found[b] == found[a] {
                proof {
                    assert(levels_named(kv)[b as int] == levels_named(kv)[a as int]);
                }
                return Err(JevError::MalformedAnswer { id: owned(id), detail: owned("level keys alias the same level (e.g. `0` and `00`)") });
            }
            b += 1;
        }
        a += 1;
    }
    proof {
        assert(!keys_alias(kv)) by {
            if keys_alias(kv) {
                let (x, y) = choose|x: int, y: int| 0 <= x < y < kv.len() && #[trigger] levels_named(kv)[x] == #[trigger] levels_named(kv)[y];
                assert(found@[x] == found@[y]);
            }
        }
    }
    let mut level: u8 = 0;
    while level < levels
        invariant
            level <= levels,
            found@.len() == kv.len(),
            !keys_alias(kv),
            kv == keys@.map_values(|s: String| s@),
            first_typed_level_fault(kv, levels as nat) is None,
            forall|j: int| 0 <= j < found@.len() ==> (#[trigger] found@[j]) as nat == levels_named(kv)[j],
            first_unnamed_level(kv, levels as nat, 0) == first_unnamed_level(kv, levels as nat, level as nat),
        decreases levels - level,
    {
        let mut present = false;
        let mut k: usize = 0;
        while k < found.len()
            invariant
                k <= found@.len(),
                found@.len() == kv.len(),
                present == exists|x: int| 0 <= x < k && #[trigger] found@[x] == level,
            decreases found.len() - k,
        {
            if found[k] == level {
                present = true;
            }
            k += 1;
        }
        proof {
            if present {
                let x = choose|x: int| 0 <= x < found@.len() && #[trigger] found@[x] == level;
                assert(levels_named(kv)[x] == level as nat);
                assert(levels_named(kv).contains(level as nat));
            } else {
                assert(!levels_named(kv).contains(level as nat)) by {
                    if levels_named(kv).contains(level as nat) {
                        let x = choose|x: int| 0 <= x < levels_named(kv).len() && levels_named(kv)[x] == level as nat;
                        assert(found@[x] == level);
                    }
                }
            }
        }
        if !present {
            return Err(JevError::MalformedAnswer {
                id: owned(id),
                detail: concat("missing probability for level ", decimal_string(level as usize).as_str()),
            });
        }
        level += 1;
    }
    Ok(found)
}

proof fn lemma_all_among(keys: Seq<Seq<char>>, options: Seq<Seq<char>>)
    requires
        forall|i: int| 0 <= i < keys.len() ==> options.contains(#[trigger] keys[i]),
    ensures
        first_not_among(keys, options) is None,
    decreases keys.len(),
{
    if keys.len() > 0 {
        assert(options.contains(keys[0]));
        let rest = keys.drop_first();
        assert forall|i: int| 0 <= i < rest.len() implies options.contains(#[trigger] rest[i]) by {
            assert(rest[i] == keys[i + 1]);
        }
        lemma_all_among(rest, options);
    }
}

proof fn lemma_typed_levels_valid(keys: Seq<Seq<char>>, levels: nat)
    requires
        forall|i: int| 0 <= i < keys.len() ==> #[trigger] typed_level_fault(keys[i], levels) is None,
    ensures
        first_typed_level_fault(keys, levels) is None,
    decreases keys.len(),
{
    if keys.len() > 0 {
        assert(typed_level_fault(keys[0], levels) is None);
        let rest = keys.drop_first();
        assert forall|i: int| 0 <= i < rest.len() implies #[trigger] typed_level_fault(rest[i], levels) is None by {
            assert(rest[i] == keys[i + 1]);
        }
        lemma_typed_levels_valid(rest, levels);
    }
}

proof fn lemma_levels_all_named(keys: Seq<Seq<char>>, levels: nat, from: nat)
    requires
        forall|l: nat| from <= l < levels ==> levels_named(keys).contains(l),
    ensures
        first_unnamed_level(keys, levels, from) is None,
    decreases levels - from,
{
    if from < levels {
        lemma_levels_all_named(keys, levels, from + 1);
    }
}

proof fn lemma_among_all(keys: Seq<Seq<char>>, options: Seq<Seq<char>>)
    requires
        first_not_among(keys, options) is None,
    ensures
        forall|i: int| 0 <= i < keys.len() ==> options.contains(#[trigger] keys[i]),
    decreases keys.len(),
{
    if keys.len() > 0 {
        let rest = keys.drop_first();
        lemma_among_all(rest, options);
        assert forall|i: int| 0 <= i < keys.len() implies options.contains(#[trigger] keys[i]) by {
            if i > 0 {
                assert(keys[i] == rest[i - 1]);
            }
        }
    }
}

proof fn lemma_typed_levels_pass(keys: Seq<Seq<char>>, levels: nat)
    requires
        first_typed_level_fault(keys, levels) is None,
    ensures
        forall|i: int| 0 <= i < keys.len() ==> #[trigger] typed_level_fault(keys[i], levels) is None,
    decreases keys.len(),
{
    if keys.len() > 0 {
        let rest = keys.drop_first();
        lemma_typed_levels_pass(rest, levels);
        assert forall|i: int| 0 <= i < keys.len() implies #[trigger] typed_level_fault(keys[i], levels) is None by {
            if i > 0 {
                assert(keys[i] == rest[i - 1]);
            }
        }
    }
}

proof fn lemma_levels_named_all(keys: Seq<Seq<char>>, levels: nat, from: nat)
    requires
        first_unnamed_level(keys, levels, from) is None,
    ensures
        forall|l: nat| from <= l < levels ==> levels_named(keys).contains(l),
    decreases levels - from,
{
    if from < levels {
        lemma_levels_named_all(keys, levels, from + 1);
    }
}

/// A typed choice decision accepts a validated choice answer exactly when
/// its probability keys and the enum's option keys are the same set.
pub proof fn lemma_choice_decision_accepts_exactly_the_options(id: Seq<char>, keys: Seq<Seq<char>>, options: Seq<Seq<char>>)
    ensures
        choice_decision_fault(id, keys, options) is None <==> (forall|k: Seq<char>| keys.contains(k) <==> options.contains(k)),
{
    if choice_decision_fault(id, keys, options) is None {
        lemma_among_all(keys, options);
        lemma_among_all(options, keys);
        assert forall|k: Seq<char>| keys.contains(k) <==> options.contains(k) by {
            if keys.contains(k) {
                let i = choose|i: int| 0 <= i < keys.len() && keys[i] == k;
                assert(options.contains(keys[i]));
            }
            if options.contains(k) {
                let i = choose|i: int| 0 <= i < options.len() && options[i] == k;
                assert(keys.contains(options[i]));
            }
        }
    }
    if forall|k: Seq<char>| keys.contains(k) <==> options.contains(k) {
        assert forall|i: int| 0 <= i < keys.len() implies options.contains(#[trigger] keys[i]) by {
            assert(keys.contains(keys[i]));
        }
        assert forall|i: int| 0 <= i < options.len() implies keys.contains(#[trigger] options[i]) by {
            assert(options.contains(options[i]));
        }
        lemma_all_among(keys, options);
        lemma_all_among(options, keys);
    }
}

/// A typed score decision on a `levels`-level rubric accepts a validated
/// score answer exactly when every probability key reads as a level
/// (`u8`) below `levels`, no two keys name the same level, and every
/// level is named.
pub proof fn lemma_score_decision_accepts_exactly_the_levels(id: Seq<char>, keys: Seq<Seq<char>>, levels: nat)
    ensures
        score_decision_fault(id, keys, levels) is None <==> {
            &&& forall|i: int| 0 <= i < keys.len() ==> (#[trigger] parse_unsigned(keys[i], 255) matches Some(l) && l < levels)
            &&& !keys_alias(keys)
            &&& forall|l: nat| l < levels ==> levels_named(keys).contains(l)
        },
{
    if score_decision_fault(id, keys, levels) is None {
        lemma_typed_levels_pass(keys, levels);
        lemma_levels_named_all(keys, levels, 0);
        assert forall|i: int| 0 <= i < keys.len() implies (#[trigger] parse_unsigned(keys[i], 255) matches Some(l) && l < levels) by {
            assert(typed_level_fault(keys[i], levels) is None);
        }
    }
    if forall|i: int| 0 <= i < keys.len() ==> (#[trigger] parse_unsigned(keys[i], 255) matches Some(l) && l < levels) {
        assert forall|i: int| 0 <= i < keys.len() implies #[trigger] typed_level_fault(keys[i], levels) is None by {
            assert(parse_unsigned(keys[i], 255) matches Some(l) && l < levels);
        }
        lemma_typed_levels_valid(keys, levels);
        if forall|l: nat| l < levels ==> levels_named(keys).contains(l) {
            lemma_levels_all_named(keys, levels, 0);
        }
    }
}

/// The typed layer accepts what the wire layer accepted: a choice answer
/// that passed validation against a question whose option keys are the
/// enum's option keys passes the typed choice check as well.
pub proof fn lemma_typed_choice_agrees(
    id: Seq<char>,
    options: Seq<(Seq<char>, Option<crate::wire::Instructions>)>,
    choice: Seq<char>,
    p: Seq<(Seq<char>, bool)>,
    normalized: bool,
    confidence_in_range: bool,
    enum_options: Seq<Seq<char>>,
)
    requires
        choice_fault(id, options, choice, p, normalized, confidence_in_range) is None,
        forall|k: Seq<char>| has_key(options, k) <==> enum_options.contains(k),
    ensures
        choice_decision_fault(id, keys_of(p), enum_options) is None,
{
    lemma_accepted_choice_is_strict(id, options, choice, p, normalized, confidence_in_range);
    let keys = keys_of(p);
    assert forall|i: int| 0 <= i < keys.len() implies enum_options.contains(#[trigger] keys[i]) by {
        assert(keys[i] == p[i].0);
        assert(has_key(p, p[i].0));
    }
    lemma_all_among(keys, enum_options);
    assert forall|i: int| 0 <= i < enum_options.len() implies keys.contains(#[trigger] enum_options[i]) by {
        assert(enum_options.contains(enum_options[i]));
        assert(has_key(p, enum_options[i]));
        let j = choose|j: int| 0 <= j < p.len() && #[trigger] p[j].0 == enum_options[i];
        assert(keys[j] == enum_options[i]);
    }
    lemma_all_among(enum_options, keys);
}

/// The typed layer accepts what the wire layer accepted: a score answer
/// that passed validation against a rubric of `levels` levels (at most
/// 255, the range of a typed rubric) passes the typed score check for the
/// same number of levels: every key names a level once, and every level
/// is named.
pub proof fn lemma_typed_score_agrees(
    id: Seq<char>,
    levels: nat,
    legend: Seq<(Seq<char>, String)>,
    p: Seq<(Seq<char>, bool)>,
    ceiling: Option<u64>,
    normalized: bool,
    confidence_in_range: bool,
)
    requires
        score_fault(id, levels, legend, p, ceiling, normalized, confidence_in_range) is None,
        levels <= 255,
        strictly_sorted(keys_of(p)),
    ensures
        score_decision_fault(id, keys_of(p), levels) is None,
{
    lemma_accepted_score_is_strict(id, levels, legend, p, ceiling, normalized, confidence_in_range);
    let keys = keys_of(p);
    assert forall|i: int| 0 <= i < keys.len() implies #[trigger] typed_level_fault(keys[i], levels) is None
        && keys[i] == decimal_text(levels_named(keys)[i]) && levels_named(keys)[i] < levels by {
        assert(keys[i] == p[i].0);
        assert(has_key(p, p[i].0));
        let l = choose|l: nat| l < levels && keys[i] == #[trigger] decimal_text(l);
        lemma_decimal_text_parses(l, 255);
    }
    lemma_typed_levels_valid(keys, levels);
    assert(!keys_alias(keys)) by {
        if keys_alias(keys) {
            let (i, j) = choose|i: int, j: int| 0 <= i < j < keys.len() && #[trigger] levels_named(keys)[i] == #[trigger] levels_named(keys)[j];
            assert(typed_level_fault(keys[i], levels) is None);
            assert(typed_level_fault(keys[j], levels) is None);
            assert(keys[i] == decimal_text(levels_named(keys)[i]));
            assert(keys[j] == decimal_text(levels_named(keys)[j]));
            lemma_lex_irreflexive(keys[i]);
        }
    }
    assert forall|l: nat| 0 <= l < levels implies levels_named(keys).contains(l) by {
        assert(has_key(p, decimal_text(l)));
        let j = choose|j: int| 0 <= j < p.len() && #[trigger] p[j].0 == decimal_text(l);
        assert(keys[j] == decimal_text(l));
        lemma_decimal_text_parses(l, 255);
        assert(levels_named(keys)[j] == l);
    }
    lemma_levels_all_named(keys, levels, 0);
}

} // verus!
