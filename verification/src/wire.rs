//! Wire shapes of the `/v1/systemone` endpoint that the library's logic
//! reads: instruction payloads, criteria, questions, and token usage.

use vstd::prelude::*;

use crate::error::{JevError, JevResult};
use crate::keyed::{has_key, lookup, KeyedMap};
use crate::text::{has_visible_char, is_blank, owned, str_equal};

verus! {

#[verifier::external_type_specification]
#[verifier::external_body]
pub struct ExJsonValue(serde_json::Value);

/// `serde_json::Value` derives `Clone`: the copy is the same JSON value.
pub assume_specification[ <serde_json::Value as Clone>::clone ](v: &serde_json::Value) -> (r: serde_json::Value)
    ensures
        r == *v,
;

/// One data field of a structured instruction payload: its text when it
/// is a JSON string, any other JSON value carried as is.
#[derive(Clone, Debug, PartialEq)]
pub enum DataValue {
    /// A JSON string.
    Text(String),
    /// Any other JSON value.
    Other(serde_json::Value),
}

/// `instructions` / `criteria` payloads: the API accepts a string, a
/// structured object (data fields plus a `question` field), or an array.
#[derive(Clone, Debug, PartialEq)]
pub enum Instructions {
    /// Plain text form.
    Text(String),
    /// Structured form: backtick-referenceable data fields.
    Structured(KeyedMap<DataValue>),
    /// Array form.
    Parts(Vec<serde_json::Value>),
}

/// Whether an instruction payload carries content: text with a
/// non-whitespace character, or a non-empty object or array.
pub open spec fn instructions_non_empty(i: Instructions) -> bool {
    match i {
        Instructions::Text(s) => has_visible_char(s@),
        Instructions::Structured(m) => m@.len() > 0,
        Instructions::Parts(p) => p@.len() > 0,
    }
}

/// The question text of an instruction payload: the text form itself,
/// or the structured form's `question` field when it is a string.
pub open spec fn question_text_of(i: Instructions) -> Option<Seq<char>> {
    match i {
        Instructions::Text(s) => Some(s@),
        Instructions::Structured(m) => match lookup(m@, "question"@) {
            Some(DataValue::Text(t)) => Some(t@),
            _ => None,
        },
        Instructions::Parts(_) => None,
    }
}

/// The value the last field keyed `k` carries, if any.
pub open spec fn last_value_of(fields: Seq<(Seq<char>, DataValue)>, k: Seq<char>) -> Option<DataValue>
    decreases fields.len(),
{
    if fields.len() == 0 {
        None
    } else if fields.last().0 == k {
        Some(fields.last().1)
    } else {
        last_value_of(fields.drop_last(), k)
    }
}

/// Message for a structured payload that is not a JSON object.
pub open spec fn not_an_object_message() -> Seq<char> {
    "JevInstructions types must serialize to a JSON object"@
}

/// Message for a data field that takes the `question` slot.
pub open spec fn question_collision_message() -> Seq<char> {
    "JevInstructions field named `question` collides with the question slot"@
}

impl Instructions {
    /// Builds the text form.
    pub fn text(s: &str) -> (r: Self)
        ensures
            r matches Instructions::Text(t) && t@ == s@,
    {
        Instructions::Text(owned(s))
    }

    /// True when the payload carries actual content (used to reject blank
    /// instructions).
    pub fn is_non_empty(&self) -> (b: bool)
        ensures
            b == instructions_non_empty(*self),
    {
        match self {
            Instructions::Text(s) => !is_blank(s.as_str()),
            Instructions::Structured(m) => !m.is_empty(),
            Instructions::Parts(p) => p.len() != 0,
        }
    }

    /// The question text: the text form, or the structured form's
    /// `question` field when it is a string. Parts carry none.
    pub fn question_text(&self) -> (r: Option<&str>)
        ensures
            match question_text_of(*self) {
                Some(t) => r matches Some(s) && s@ == t,
                None => r is None,
            },
    {
        match self {
            Instructions::Text(s) => Some(s.as_str()),
            Instructions::Structured(m) => match m.get("question") {
                Some(DataValue::Text(t)) => Some(t.as_str()),
                _ => None,
            },
            Instructions::Parts(_) => None,
        }
    }

    /// Struct-to-string contract: embeds `question` alongside the data
    /// fields of a serialized payload, producing the structured form.
    /// `data` is the payload's object entries, or `None` when the payload
    /// did not serialize to a JSON object. A data field named `question`
    /// would collide with the embedded question and is rejected.
    pub fn from_question(question: &str, data: Option<Vec<(String, DataValue)>>) -> (r: JevResult<Self>)
        ensures
            data is None ==> (r matches Err(JevError::Schema(m)) && m@ == not_an_object_message()),
            data matches Some(fields) ==> {
                let fs = fields@.map_values(|f: (String, DataValue)| (f.0@, f.1));
                &&& (exists|i: int| 0 <= i < fs.len() && #[trigger] fs[i].0 == "question"@) ==> (r matches Err(JevError::Schema(m)) && m@ == question_collision_message())
                &&& (forall|i: int| 0 <= i < fs.len() ==> #[trigger] fs[i].0 != "question"@) ==> (r matches Ok(Instructions::Structured(m)) && {
                    &&& lookup(m@, "question"@) matches Some(DataValue::Text(q)) && q@ == question@
                    &&& forall|k: Seq<char>| k != "question"@ ==> #[trigger] lookup(m@, k) == last_value_of(fs, k)
                })
            },
    {
        let fields = match data {
            None => {
                return Err(JevError::Schema(owned("JevInstructions types must serialize to a JSON object")));
            },
            Some(fields) => fields,
        };
        let ghost fs = fields@.map_values(|f: (String, DataValue)| (f.0@, f.1));
        let mut out: KeyedMap<DataValue> = KeyedMap::new();
        let n = fields.len();
        for field in it: fields
            invariant
                n == fs.len(),
                data matches Some(f) && f@.map_values(|f: (String, DataValue)| (f.0@, f.1)) == fs,
                it.seq().map_values(|f: (String, DataValue)| (f.0@, f.1)) == fs,
                forall|j: int| 0 <= j < it.index() ==> #[trigger] fs[j].0 != "question"@,
                forall|k: Seq<char>| #[trigger] lookup(out@, k) == last_value_of(fs.take(it.index() as int), k),
        {
            let (key, value) = field;
            let ghost i = it.index();
            assert(key@ == fs[i].0);
            assert(value == fs[i].1);
            if str_equal(key.as_str(), "question") {
                return Err(JevError::Schema(owned("JevInstructions field named `question` collides with the question slot")));
            }
            out.insert(key, value);
            assert(fs.take(i + 1).drop_last() =~= fs.take(i));
        }
        assert(fs.take(n as int) =~= fs);
        out.insert(owned("question"), DataValue::Text(owned(question)));
        Ok(Instructions::Structured(out))
    }
}

/// Noul criteria: descriptions of what yes and no mean.
#[derive(Clone, Debug, PartialEq)]
pub struct NoulCriteria {
    /// What a yes (value near 1) means.
    pub yes: Instructions,
    /// What a no (value near 0) means.
    pub no: Instructions,
}

/// A question exactly as it appears on the wire.
#[derive(Clone, Debug, PartialEq)]
pub enum WireQuestion {
    /// Pick one option from `criteria` (max 255 options).
    Choice {
        /// What the model should decide.
        instructions: Instructions,
        /// Option key to rubric description; `None` means "no extra detail".
        criteria: KeyedMap<Option<Instructions>>,
    },
    /// Rate the state against an ordered rubric (2..=10 levels).
    Score {
        /// What the model should rate.
        instructions: Instructions,
        /// Ordered level descriptions.
        criteria: Vec<Instructions>,
    },
    /// Estimate P(yes) for a statement.
    Noul {
        /// The yes/no question.
        instructions: Instructions,
        /// Optional pole descriptions.
        criteria: Option<NoulCriteria>,
    },
}

/// The wire name of a question's primitive.
pub open spec fn question_kind_name(q: WireQuestion) -> Seq<char> {
    match q {
        WireQuestion::Choice { .. } => "choice"@,
        WireQuestion::Score { .. } => "score"@,
        WireQuestion::Noul { .. } => "noul"@,
    }
}

/// A question's instruction payload.
pub open spec fn instructions_of(q: WireQuestion) -> Instructions {
    match q {
        WireQuestion::Choice { instructions, .. } => instructions,
        WireQuestion::Score { instructions, .. } => instructions,
        WireQuestion::Noul { instructions, .. } => instructions,
    }
}

impl WireQuestion {
    /// The primitive's wire name.
    pub fn kind_str(&self) -> (r: &'static str)
        ensures
            r@ == question_kind_name(*self),
    {
        match self {
            WireQuestion::Choice { .. } => "choice",
            WireQuestion::Score { .. } => "score",
            WireQuestion::Noul { .. } => "noul",
        }
    }

    /// Choice option keys, if this is a choice question.
    pub fn choice_options(&self) -> (r: Option<&KeyedMap<Option<Instructions>>>)
        ensures
            match *self {
                WireQuestion::Choice { criteria, .. } => r == Some(&criteria),
                _ => r is None,
            },
    {
        match self {
            WireQuestion::Choice { criteria, .. } => Some(criteria),
            _ => None,
        }
    }

    /// The question's instruction payload.
    pub fn instructions(&self) -> (r: &Instructions)
        ensures
            *r == instructions_of(*self),
    {
        match self {
            WireQuestion::Choice { instructions, .. } => instructions,
            WireQuestion::Score { instructions, .. } => instructions,
            WireQuestion::Noul { instructions, .. } => instructions,
        }
    }
}

/// Token usage returned with every response.
#[derive(Clone, Copy, Debug, PartialEq, Eq)]
pub struct WireUsage {
    /// Billable input tokens.
    pub input_tokens: u64,
    /// Output tokens (currently free).
    pub output_tokens: u64,
}

} // verus!
