//! Backtick reference validation: every reference's root segment must be
//! a key the serialized state actually carries, an option key of the
//! question, or a data field of its own structured instructions.

use vstd::prelude::*;

use crate::error::{JevError, JevResult};
use crate::keyed::{has_key, lookup, KeyedMap};
use crate::naming::{backtick_refs, backtick_tokens};
use crate::text::{chars_of, str_equal, string_of};
use crate::wire::{instructions_of, question_text_of, Instructions, WireQuestion};

verus! {

/// State contract for reference validation: the top-level keys serde
/// emits for the state, in declaration order, or `None` when the
/// serialized shape is not statically knowable and root checking is
/// exempt.
pub trait StateKeys {
    /// Serialized top-level keys, or `None` to exempt the type.
    const STATE_KEYS: Option<&'static [&'static str]>;
}

/// The root segment of a reference path: the text before the first `.`
/// or `[`.
pub open spec fn root_of(token: Seq<char>) -> Seq<char>
    decreases token.len(),
{
    if token.len() == 0 || token[0] == '.' || token[0] == '[' {
        Seq::empty()
    } else {
        seq![token[0]] + root_of(token.drop_first())
    }
}

/// The reference tokens of an instruction payload's question text; parts
/// carry no single question text and hence no references.
pub open spec fn refs_in(i: Instructions) -> Seq<Seq<char>> {
    match question_text_of(i) {
        Some(t) => backtick_tokens(t),
        None => Seq::empty(),
    }
}

/// Whether `root` names a data field of the structured payload (a field
/// other than the embedded `question`).
pub open spec fn is_data_root(i: Instructions, root: Seq<char>) -> bool {
    match i {
        Instructions::Structured(m) => has_key(m@, root) && root != "question"@,
        _ => false,
    }
}

/// Whether a reference root is allowed for question `q`.
pub open spec fn root_allowed(q: WireQuestion, state_keys: Seq<Seq<char>>, root: Seq<char>) -> bool {
    ||| state_keys.contains(root)
    ||| (q matches WireQuestion::Choice { criteria, .. } && has_key(criteria@, root))
    ||| is_data_root(instructions_of(q), root)
}

/// The first of `tokens` whose root is not allowed for `q`.
pub open spec fn first_dangling_token(q: WireQuestion, state_keys: Seq<Seq<char>>, tokens: Seq<Seq<char>>) -> Option<Seq<char>>
    decreases tokens.len(),
{
    if tokens.len() == 0 {
        None
    } else if !root_allowed(q, state_keys, root_of(tokens[0])) {
        Some(tokens[0])
    } else {
        first_dangling_token(q, state_keys, tokens.drop_first())
    }
}

/// The first question (in id order) with a dangling reference, and that
/// reference.
pub open spec fn first_dangling(questions: Seq<(Seq<char>, WireQuestion)>, state_keys: Seq<Seq<char>>) -> Option<(Seq<char>, Seq<char>)>
    decreases questions.len(),
{
    if questions.len() == 0 {
        None
    } else {
        match first_dangling_token(questions[0].1, state_keys, refs_in(instructions_of(questions[0].1))) {
            Some(t) => Some((questions[0].0, t)),
            None => first_dangling(questions.drop_first(), state_keys),
        }
    }
}

proof fn lemma_no_dangling_token(q: WireQuestion, state_keys: Seq<Seq<char>>, tokens: Seq<Seq<char>>)
    requires
        first_dangling_token(q, state_keys, tokens) is None,
    ensures
        forall|j: int| 0 <= j < tokens.len() ==> root_allowed(q, state_keys, root_of(#[trigger] tokens[j])),
    decreases tokens.len(),
{
    if tokens.len() > 0 {
        lemma_no_dangling_token(q, state_keys, tokens.drop_first());
        assert forall|j: int| 0 <= j < tokens.len() implies root_allowed(q, state_keys, root_of(#[trigger] tokens[j])) by {
            if j > 0 {
                assert(tokens[j] == tokens.drop_first()[j - 1]);
            }
        }
    }
}

/// In a question set whose references all check, the root of every
/// reference of every question's text is a serialized state key, one of
/// the question's own option keys, or a data field of its structured
/// instructions.
pub proof fn lemma_checked_refs_are_rooted(questions: Seq<(Seq<char>, WireQuestion)>, state_keys: Seq<Seq<char>>)
    requires
        first_dangling(questions, state_keys) is None,
    ensures
        forall|i: int, j: int| 0 <= i < questions.len() && 0 <= j < refs_in(instructions_of(questions[i].1)).len()
            ==> root_allowed(questions[i].1, state_keys, root_of(#[trigger] refs_in(instructions_of(#[trigger] questions[i].1))[j])),
    decreases questions.len(),
{
    if questions.len() > 0 {
        lemma_no_dangling_token(questions[0].1, state_keys, refs_in(instructions_of(questions[0].1)));
        lemma_checked_refs_are_rooted(questions.drop_first(), state_keys);
        assert forall|i: int, j: int| 0 <= i < questions.len() && 0 <= j < refs_in(instructions_of(questions[i].1)).len()
            implies root_allowed(questions[i].1, state_keys, root_of(#[trigger] refs_in(instructions_of(#[trigger] questions[i].1))[j])) by {
            if i > 0 {
                assert(questions[i] == questions.drop_first()[i - 1]);
            }
        }
    }
}

proof fn lemma_allowed_tokens(q: WireQuestion, state_keys: Seq<Seq<char>>, tokens: Seq<Seq<char>>)
    requires
        forall|j: int| 0 <= j < tokens.len() ==> root_allowed(q, state_keys, root_of(#[trigger] tokens[j])),
    ensures
        first_dangling_token(q, state_keys, tokens) is None,
    decreases tokens.len(),
{
    if tokens.len() > 0 {
        assert(root_allowed(q, state_keys, root_of(tokens[0])));
        let rest = tokens.drop_first();
        assert forall|j: int| 0 <= j < rest.len() implies root_allowed(q, state_keys, root_of(#[trigger] rest[j])) by {
            assert(rest[j] == tokens[j + 1]);
        }
        lemma_allowed_tokens(q, state_keys, rest);
    }
}

/// Conversely, a question set in which the root of every reference of
/// every question's text is a serialized state key, one of the question's
/// own option keys, or a data field of its structured instructions has no
/// dangling reference.
pub proof fn lemma_rooted_refs_check(questions: Seq<(Seq<char>, WireQuestion)>, state_keys: Seq<Seq<char>>)
    requires
        forall|i: int, j: int| 0 <= i < questions.len() && 0 <= j < refs_in(instructions_of(questions[i].1)).len()
            ==> root_allowed(questions[i].1, state_keys, root_of(#[trigger] refs_in(instructions_of(#[trigger] questions[i].1))[j])),
    ensures
        first_dangling(questions, state_keys) is None,
    decreases questions.len(),
{
    if questions.len() > 0 {
        let q = questions[0].1;
        assert forall|j: int| 0 <= j < refs_in(instructions_of(q)).len() implies root_allowed(q, state_keys, root_of(#[trigger] refs_in(instructions_of(q))[j])) by {
            assert(root_allowed(questions[0].1, state_keys, root_of(refs_in(instructions_of(questions[0].1))[j])));
        }
        lemma_allowed_tokens(q, state_keys, refs_in(instructions_of(q)));
        let rest = questions.drop_first();
        assert forall|i: int, j: int| 0 <= i < rest.len() && 0 <= j < refs_in(instructions_of(rest[i].1)).len()
            implies root_allowed(rest[i].1, state_keys, root_of(#[trigger] refs_in(instructions_of(#[trigger] rest[i].1))[j])) by {
            assert(rest[i] == questions[i + 1]);
            assert(root_allowed(questions[i + 1].1, state_keys, root_of(refs_in(instructions_of(questions[i + 1].1))[j])));
        }
        lemma_rooted_refs_check(rest, state_keys);
    }
}

/// The root of a reference token is its longest prefix that holds
/// neither `.` nor `[`: a prefix of the token, free of both, and followed
/// (if anything follows) by one of them.
pub proof fn lemma_root_is_longest_plain_prefix(token: Seq<char>)
    ensures
        root_of(token).len() <= token.len(),
        root_of(token) == token.subrange(0, root_of(token).len() as int),
        forall|i: int| 0 <= i < root_of(token).len() ==> token[i] != '.' && token[i] != '[',
        root_of(token).len() < token.len() ==> (token[root_of(token).len() as int] == '.' || token[root_of(token).len() as int] == '['),
    decreases token.len(),
{
    if token.len() > 0 && token[0] != '.' && token[0] != '[' {
        let rest = token.drop_first();
        lemma_root_is_longest_plain_prefix(rest);
        assert(root_of(token) == seq![token[0]] + root_of(rest));
        assert(token.subrange(0, root_of(token).len() as int) =~= seq![token[0]] + rest.subrange(0, root_of(rest).len() as int));
        assert forall|i: int| 0 <= i < root_of(token).len() implies token[i] != '.' && token[i] != '[' by {
            if i > 0 {
                assert(token[i] == rest[i - 1]);
            }
        }
        if root_of(token).len() < token.len() {
            assert(token[root_of(token).len() as int] == rest[root_of(rest).len() as int]);
        }
    } else {
        assert(root_of(token) =~= Seq::<char>::empty());
        assert(token.subrange(0, 0) =~= Seq::<char>::empty());
    }
}

/// A token with neither `.` nor `[` is its own root.
pub proof fn lemma_plain_token_is_its_root(token: Seq<char>)
    requires
        forall|i: int| 0 <= i < token.len() ==> token[i] != '.' && token[i] != '[',
    ensures
        root_of(token) == token,
{
    lemma_root_is_longest_plain_prefix(token);
    assert(token.subrange(0, token.len() as int) =~= token);
}

/// A question set whose every reference (without `.` or `[`) is itself a
/// state key has no dangling reference: a reference that equals a state
/// key is never reported.
pub proof fn lemma_state_key_references_never_dangle(questions: Seq<(Seq<char>, WireQuestion)>, state_keys: Seq<Seq<char>>)
    requires
        forall|i: int, j: int| 0 <= i < questions.len() && 0 <= j < refs_in(instructions_of(questions[i].1)).len()
            ==> {
                let t = #[trigger] refs_in(instructions_of(#[trigger] questions[i].1))[j];
                &&& state_keys.contains(t)
                &&& forall|k: int| 0 <= k < t.len() ==> t[k] != '.' && t[k] != '['
            },
    ensures
        first_dangling(questions, state_keys) is None,
{
    assert forall|i: int, j: int| 0 <= i < questions.len() && 0 <= j < refs_in(instructions_of(questions[i].1)).len()
        implies root_allowed(questions[i].1, state_keys, root_of(#[trigger] refs_in(instructions_of(#[trigger] questions[i].1))[j])) by {
        let t = refs_in(instructions_of(questions[i].1))[j];
        lemma_plain_token_is_its_root(t);
    }
    lemma_rooted_refs_check(questions, state_keys);
}

/// Questions whose texts carry no reference have no dangling reference,
/// whatever the state's keys.
pub proof fn lemma_no_refs_no_dangling(questions: Seq<(Seq<char>, WireQuestion)>, state_keys: Seq<Seq<char>>)
    requires
        forall|i: int| 0 <= i < questions.len() ==> #[trigger] refs_in(instructions_of(questions[i].1)) == Seq::<Seq<char>>::empty(),
    ensures
        first_dangling(questions, state_keys) is None,
    decreases questions.len(),
{
    if questions.len() > 0 {
        assert(refs_in(instructions_of(questions[0].1)) == Seq::<Seq<char>>::empty());
        let rest = questions.drop_first();
        assert forall|i: int| 0 <= i < rest.len() implies #[trigger] refs_in(instructions_of(rest[i].1)) == Seq::<Seq<char>>::empty() by {
            assert(rest[i] == questions[i + 1]);
        }
        lemma_no_refs_no_dangling(rest, state_keys);
    }
}

/// The root segment of a reference path: the text before the first `.`
/// or `[`.
pub fn root_segment(token: &str) -> (r: String)
    ensures
        r@ == root_of(token@),
{
    let cs = chars_of(token);
    let mut i: usize = 0;
    assert(cs@.skip(0) =~= cs@);
    assert(cs@.take(0) + cs@ =~= cs@);
    while i < cs.len() && cs[i] != '.' && cs[i] != '['
        invariant
            i <= cs.len(),
            cs@ == token@,
            root_of(token@) == cs@.take(i as int) + root_of(cs@.skip(i as int)),
        decreases cs.len() - i,
    {
        proof {
            assert(cs@.skip(i as int).drop_first() =~= cs@.skip(i + 1));
            assert(cs@.take(i + 1) =~= cs@.take(i as int) + seq![cs@[i as int]]);
            assert(root_of(cs@.skip(i as int)) == seq![cs@[i as int]] + root_of(cs@.skip(i + 1)));
            assert(cs@.take(i as int) + root_of(cs@.skip(i as int)) =~= cs@.take(i + 1) + root_of(cs@.skip(i + 1)));
        }
        i += 1;
    }
    proof {
        if i == cs.len() {
            assert(cs@.skip(i as int) =~= Seq::<char>::empty());
        }
        assert(root_of(cs@.skip(i as int)) == Seq::<char>::empty());
        assert(cs@.take(i as int) + Seq::<char>::empty() =~= cs@.take(i as int));
    }
    let prefix: Vec<char> = slice_prefix(&cs, i);
    string_of(&prefix)
}

fn slice_prefix(cs: &Vec<char>, n: usize) -> (r: Vec<char>)
    requires
        n <= cs.len(),
    ensures
        r@ == cs@.take(n as int),
{
    let mut out: Vec<char> = Vec::new();
    let mut i: usize = 0;
    while i < n
        invariant
            i <= n <= cs.len(),
            out@ == cs@.take(i as int),
        decreases n - i,
    {
        out.push(cs[i]);
        i += 1;
        assert(cs@.take(i as int) =~= cs@.take((i - 1) as int).push(cs@[i - 1]));
    }
    out
}

/// Reference tokens of the instructions' question text.
fn refs_of(instructions: &Instructions) -> (r: Vec<String>)
    ensures
        r@.map_values(|s: String| s@) == refs_in(*instructions),
{
    match instructions.question_text() {
        Some(text) => backtick_refs(text),
        None => {
            let v: Vec<String> = Vec::new();
            assert(v@.map_values(|s: String| s@) =~= Seq::<Seq<char>>::empty());
            v
        },
    }
}

/// Whether `root` names a data field of the structured payload.
fn data_root(instructions: &Instructions, root: &str) -> (b: bool)
    ensures
        b == is_data_root(*instructions, root@),
{
    match instructions {
        Instructions::Structured(map) => map.contains_key(root) && !str_equal(root, "question"),
        _ => false,
    }
}

fn contains_str(keys: &[&str], root: &str) -> (b: bool)
    ensures
        b == keys@.map_values(|s: &str| s@).contains(root@),
{
    let ghost ks = keys@.map_values(|s: &str| s@);
    let mut i: usize = 0;
    while i < keys.len()
        invariant
            i <= keys@.len(),
            ks == keys@.map_values(|s: &str| s@),
            forall|j: int| 0 <= j < i ==> ks[j] != root@,
        decreases keys.len() - i,
    {
        if str_equal(keys[i], root) {
            assert(ks[i as int] == root@);
            return true;
        }
        i += 1;
    }
    false
}

/// Validates every question's instruction references: each backtick
/// token's root segment must be a state key, an option key of that
/// question (choice questions), or a data field of the structured
/// instructions payload itself. `None` state keys exempt the set. The
/// first dangling reference (questions in id order, tokens in text
/// order) is reported.
pub fn validate_state_refs(questions: &KeyedMap<WireQuestion>, state_keys: Option<&[&str]>) -> (r: JevResult<()>)
    ensures
        match state_keys {
            None => r is Ok,
            Some(keys) => match first_dangling(questions@, keys@.map_values(|s: &str| s@)) {
                None => r is Ok,
                Some((q, t)) => r matches Err(JevError::DanglingStateRef { question, reference }) && question@ == q && reference@ == t,
            },
        },
{
    let keys = match state_keys {
        None => return Ok(()),
        Some(keys) => keys,
    };
    let ghost ks = keys@.map_values(|s: &str| s@);
    let entries = questions.entries();
    let ghost qs = questions@;
    let mut i: usize = 0;
    assert(qs.skip(0) =~= qs);
    while i < entries.len()
        invariant
            i <= entries@.len(),
            entries@.len() == qs.len(),
            forall|j: int| 0 <= j < entries@.len() ==> (#[trigger] entries@[j]).0@ == qs[j].0 && entries@[j].1 == qs[j].1,
            ks == keys@.map_values(|s: &str| s@),
            qs == questions@,
            state_keys == Some(keys),
            first_dangling(qs, ks) == first_dangling(qs.skip(i as int), ks),
        decreases entries.len() - i,
    {
        let (id, question) = (&entries[i].0, &entries[i].1);
        let tokens = refs_of(question.instructions());
        let ghost toks = tokens@.map_values(|s: String| s@);
        proof {
            assert(qs.skip(i as int)[0] == qs[i as int]);
            assert(qs.skip(i as int).drop_first() =~= qs.skip(i + 1));
            assert(toks.skip(0) =~= toks);
        }
        let mut j: usize = 0;
        while j < tokens.len()
            invariant
                j <= tokens@.len(),
                toks == tokens@.map_values(|s: String| s@),
                toks == refs_in(instructions_of(*question)),
                ks == keys@.map_values(|s: &str| s@),
                i < qs.len(),
                qs == questions@,
                state_keys == Some(keys),
                *question == qs[i as int].1,
                id@ == qs[i as int].0,
                first_dangling(qs, ks) == first_dangling(qs.skip(i as int), ks),
                first_dangling_token(*question, ks, toks) == first_dangling_token(*question, ks, toks.skip(j as int)),
            decreases tokens.len() - j,
        {
            let token = &tokens[j];
            let root = root_segment(token.as_str());
            let in_state = contains_str(keys, root.as_str());
            let in_options = match question.choice_options() {
                Some(options) => options.contains_key(root.as_str()),
                None => false,
            };
            let in_data = data_root(question.instructions(), root.as_str());
            proof {
                assert(toks.skip(j as int)[0] == toks[j as int]);
                assert(toks.skip(j as int).drop_first() =~= toks.skip(j + 1));
            }
            if !(in_state || in_options || in_data) {
                proof {
                    assert(token@ == toks[j as int]);
                    assert(!root_allowed(*question, ks, root_of(toks[j as int])));
                    assert(first_dangling_token(*question, ks, toks.skip(j as int)) == Some(toks[j as int]));
                    assert(qs.skip(i as int)[0].1 == *question);
                    assert(first_dangling(qs.skip(i as int), ks) == Some((qs[i as int].0, toks[j as int])));
                }
                return Err(JevError::DanglingStateRef { question: id.clone(), reference: token.clone() });
            }
            j += 1;
        }
        proof {
            assert(toks.skip(tokens.len() as int) =~= Seq::<Seq<char>>::empty());
        }
        i += 1;
    }
    proof {
        assert(qs.skip(entries.len() as int) =~= Seq::<(Seq<char>, WireQuestion)>::empty());
    }
    Ok(())
}

} // verus!
