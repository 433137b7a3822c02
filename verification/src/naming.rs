//! Names as the model sees them: serde's field renaming rules, the
//! serialized key of each field, backtick reference tokens, and the
//! snake-case option keys of choice variants.

use vstd::prelude::*;

use crate::text::{
    ascii_lower, ascii_upper, chars_of, str_equal, string_of, to_ascii_lower, to_ascii_upper,
};

verus! {

/// Whether std's Unicode tables give `c` the Uppercase property (the
/// result of `char::is_uppercase`).
pub uninterp spec fn unicode_is_uppercase(c: char) -> bool;

/// The characters std's Unicode tables map `c` to in lowercase (the
/// result of `char::to_lowercase`, collected).
pub uninterp spec fn unicode_lowercase(c: char) -> Seq<char>;

/// Calls `char::is_uppercase`; the contract ties the answer to the
/// character and says nothing more of std's Unicode tables.
#[verifier::external_body]
fn is_uppercase(c: char) -> (b: bool)
    ensures
        b == unicode_is_uppercase(c),
{
    c.is_uppercase()
}

/// Calls `char::to_lowercase` and collects the characters it yields; the
/// contract ties them to the character and says nothing more of std's
/// Unicode tables.
#[verifier::external_body]
fn lowercase(c: char) -> (r: Vec<char>)
    ensures
        r@ == unicode_lowercase(c),
{
    c.to_lowercase().collect()
}

/// Whether std's Unicode tables give `c` the Lowercase property (the
/// result of `char::is_lowercase`).
pub uninterp spec fn unicode_is_lowercase(c: char) -> bool;

/// Whether std's Unicode tables class `c` as numeric (the result of
/// `char::is_numeric`).
pub uninterp spec fn unicode_is_numeric(c: char) -> bool;

/// The characters std's Unicode tables map `c` to in uppercase (the
/// result of `char::to_uppercase`, collected).
pub uninterp spec fn unicode_uppercase(c: char) -> Seq<char>;

/// Calls `char::is_lowercase`; the contract ties the answer to the
/// character and says nothing more of std's Unicode tables.
#[verifier::external_body]
fn is_lowercase(c: char) -> (b: bool)
    ensures
        b == unicode_is_lowercase(c),
{
    c.is_lowercase()
}

/// Calls `char::is_numeric`; the contract ties the answer to the
/// character and says nothing more of std's Unicode tables.
#[verifier::external_body]
fn is_numeric(c: char) -> (b: bool)
    ensures
        b == unicode_is_numeric(c),
{
    c.is_numeric()
}

/// Calls `char::to_uppercase` and collects the characters it yields; the
/// contract ties them to the character and says nothing more of std's
/// Unicode tables.
#[verifier::external_body]
fn uppercase(c: char) -> (r: Vec<char>)
    ensures
        r@ == unicode_uppercase(c),
{
    c.to_uppercase().collect()
}

/// The default option key of a choice variant: every uppercase character
/// becomes its lowercase form, preceded by `_` unless it opens the name
/// (`NeedsReview` becomes `needs_review`).
pub open spec fn snake_case(s: Seq<char>) -> Seq<char>
    decreases s.len(),
{
    if s.len() == 0 {
        Seq::empty()
    } else {
        let prefix = snake_case(s.drop_last());
        let c = s.last();
        if unicode_is_uppercase(c) {
            (if s.len() > 1 {
                prefix.push('_')
            } else {
                prefix
            }) + unicode_lowercase(c)
        } else {
            prefix.push(c)
        }
    }
}

/// A character with what std's Unicode tables say of its case: whether
/// it is uppercase, and the characters of its lowercase form.
#[derive(Clone, Debug)]
pub struct CasedChar {
    pub c: char,
    pub upper: bool,
    pub lower: Vec<char>,
}

/// Snake case over characters that carry their own case facts: every
/// uppercase character becomes its lowercase form, preceded by `_`
/// unless it opens the name.
pub open spec fn snake_parts(cs: Seq<CasedChar>) -> Seq<char>
    decreases cs.len(),
{
    if cs.len() == 0 {
        Seq::empty()
    } else {
        let prefix = snake_parts(cs.drop_last());
        let c = cs.last();
        if c.upper {
            (if cs.len() > 1 {
                prefix.push('_')
            } else {
                prefix
            }) + c.lower@
        } else {
            prefix.push(c.c)
        }
    }
}

/// Whether `cs` carries the characters of `s`, each with std's case facts.
pub open spec fn cases_of(cs: Seq<CasedChar>, s: Seq<char>) -> bool {
    &&& cs.len() == s.len()
    &&& forall|i: int| 0 <= i < s.len() ==> {
        &&& (#[trigger] cs[i]).c == s[i]
        &&& cs[i].upper == unicode_is_uppercase(s[i])
        &&& cs[i].lower@ == unicode_lowercase(s[i])
    }
}

proof fn lemma_snake_parts_of_cases(cs: Seq<CasedChar>, s: Seq<char>)
    requires
        cases_of(cs, s),
    ensures
        snake_parts(cs) == snake_case(s),
    decreases s.len(),
{
    if s.len() > 0 {
        assert(cases_of(cs.drop_last(), s.drop_last())) by {
            assert forall|i: int| 0 <= i < s.drop_last().len() implies {
                &&& (#[trigger] cs.drop_last()[i]).c == s.drop_last()[i]
                &&& cs.drop_last()[i].upper == unicode_is_uppercase(s.drop_last()[i])
                &&& cs.drop_last()[i].lower@ == unicode_lowercase(s.drop_last()[i])
            } by {
                assert(cs.drop_last()[i] == cs[i]);
            }
        }
        lemma_snake_parts_of_cases(cs.drop_last(), s.drop_last());
        assert(cs.last() == cs[cs.len() - 1]);
    }
}

proof fn lemma_cases_push(cs: Seq<CasedChar>, s: Seq<char>, x: CasedChar, c: char)
    requires
        cases_of(cs, s),
        x.c == c,
        x.upper == unicode_is_uppercase(c),
        x.lower@ == unicode_lowercase(c),
    ensures
        cases_of(cs.push(x), s.push(c)),
{
    assert forall|i: int| 0 <= i < s.push(c).len() implies {
        &&& (#[trigger] cs.push(x)[i]).c == s.push(c)[i]
        &&& cs.push(x)[i].upper == unicode_is_uppercase(s.push(c)[i])
        &&& cs.push(x)[i].lower@ == unicode_lowercase(s.push(c)[i])
    } by {
        if i < s.len() {
            assert(cs.push(x)[i] == cs[i]);
        }
    }
}

/// Snake-cases characters that carry their own case facts.
pub fn snake_case_of(cs: &Vec<CasedChar>) -> (r: String)
    ensures
        r@ == snake_parts(cs@),
{
    let mut out: Vec<char> = Vec::new();
    let mut i: usize = 0;
    while i < cs.len()
        invariant
            i <= cs@.len(),
            out@ == snake_parts(cs@.take(i as int)),
        decreases cs.len() - i,
    {
        let c = &cs[i];
        assert(cs@.take(i + 1).drop_last() =~= cs@.take(i as int));
        assert(cs@.take(i + 1).last() == cs@[i as int]);
        if c.upper {
            if i != 0 {
                out.push('_');
            }
            let mut j: usize = 0;
            let ghost base = out@;
            while j < c.lower.len()
                invariant
                    j <= c.lower@.len(),
                    out@ == base + c.lower@.take(j as int),
                decreases c.lower.len() - j,
            {
                out.push(c.lower[j]);
                j += 1;
                assert(c.lower@.take(j as int) =~= c.lower@.take((j - 1) as int).push(c.lower@[j - 1]));
            }
            assert(c.lower@.take(c.lower.len() as int) =~= c.lower@);
        } else {
            out.push(c.c);
        }
        i += 1;
    }
    assert(cs@.take(cs.len() as int) =~= cs@);
    string_of(&out)
}

/// Snake-cases a variant name for its default option key.
pub fn to_snake_case(ident: &str) -> (r: String)
    ensures
        r@ == snake_case(ident@),
{
    let chars = chars_of(ident);
    let mut cs: Vec<CasedChar> = Vec::new();
    let mut i: usize = 0;
    while i < chars.len()
        invariant
            i <= chars@.len(),
            chars@ == ident@,
            cases_of(cs@, chars@.take(i as int)),
        decreases chars.len() - i,
    {
        let c = chars[i];
        let cased = CasedChar { c, upper: is_uppercase(c), lower: lowercase(c) };
        let ghost prev = cs@;
        let ghost added = cased;
        cs.push(cased);
        proof {
            lemma_cases_push(prev, chars@.take(i as int), added, c);
            assert(chars@.take(i + 1) =~= chars@.take(i as int).push(c));
        }
        i += 1;
    }
    assert(chars@.take(chars.len() as int) =~= chars@);
    proof {
        lemma_snake_parts_of_cases(cs@, ident@);
    }
    snake_case_of(&cs)
}

/// The `rename_all` casing rules serde accepts.
#[derive(Clone, Copy, Debug, PartialEq, Eq, Structural)]
pub enum RenameRule {
    LowerCase,
    UpperCase,
    PascalCase,
    CamelCase,
    SnakeCase,
    ScreamingSnakeCase,
    KebabCase,
    ScreamingKebabCase,
}

/// The rule a `rename_all` string names, if serde knows it.
pub open spec fn rename_rule_named(raw: Seq<char>) -> Option<RenameRule> {
    if raw == "lowercase"@ {
        Some(RenameRule::LowerCase)
    } else if raw == "UPPERCASE"@ {
        Some(RenameRule::UpperCase)
    } else if raw == "PascalCase"@ {
        Some(RenameRule::PascalCase)
    } else if raw == "camelCase"@ {
        Some(RenameRule::CamelCase)
    } else if raw == "snake_case"@ {
        Some(RenameRule::SnakeCase)
    } else if raw == "SCREAMING_SNAKE_CASE"@ {
        Some(RenameRule::ScreamingSnakeCase)
    } else if raw == "kebab-case"@ {
        Some(RenameRule::KebabCase)
    } else if raw == "SCREAMING-KEBAB-CASE"@ {
        Some(RenameRule::ScreamingKebabCase)
    } else {
        None
    }
}

/// Every character in ASCII uppercase.
pub open spec fn upper_all(s: Seq<char>) -> Seq<char> {
    s.map_values(|c: char| ascii_upper(c))
}

/// Every `_` replaced by `-`.
pub open spec fn dashed(s: Seq<char>) -> Seq<char> {
    s.map_values(|c: char|
        if c == '_' {
            '-'
        } else {
            c
        })
}

/// serde's PascalCase of a field name: `_` is dropped and the character
/// after it (and the first one) is ASCII-uppercased.
pub open spec fn pascal_from(s: Seq<char>, capitalize: bool) -> Seq<char>
    decreases s.len(),
{
    if s.len() == 0 {
        Seq::empty()
    } else if s[0] == '_' {
        pascal_from(s.drop_first(), true)
    } else if capitalize {
        seq![ascii_upper(s[0])] + pascal_from(s.drop_first(), false)
    } else {
        seq![s[0]] + pascal_from(s.drop_first(), false)
    }
}

/// serde's camelCase of a field name: its PascalCase with the first
/// character ASCII-lowercased.
pub open spec fn camel(s: Seq<char>) -> Seq<char> {
    let p = pascal_from(s, true);
    if p.len() == 0 {
        p
    } else {
        seq![ascii_lower(p[0])] + p.drop_first()
    }
}

/// The key serde emits for field `ident` under `rule`.
pub open spec fn renamed(rule: RenameRule, ident: Seq<char>) -> Seq<char> {
    match rule {
        RenameRule::LowerCase | RenameRule::SnakeCase => ident,
        RenameRule::UpperCase | RenameRule::ScreamingSnakeCase => upper_all(ident),
        RenameRule::PascalCase => pascal_from(ident, true),
        RenameRule::CamelCase => camel(ident),
        RenameRule::KebabCase => dashed(ident),
        RenameRule::ScreamingKebabCase => dashed(upper_all(ident)),
    }
}

fn map_upper(cs: &Vec<char>) -> (r: Vec<char>)
    ensures
        r@ == upper_all(cs@),
{
    let mut out: Vec<char> = Vec::new();
    let mut i: usize = 0;
    while i < cs.len()
        invariant
            i <= cs.len(),
            out@ == upper_all(cs@.take(i as int)),
        decreases cs.len() - i,
    {
        out.push(to_ascii_upper(cs[i]));
        i += 1;
        assert(upper_all(cs@.take(i as int)) =~= upper_all(cs@.take((i - 1) as int)).push(ascii_upper(cs@[i - 1])));
    }
    assert(cs@.take(cs.len() as int) =~= cs@);
    out
}

fn map_dashed(cs: &Vec<char>) -> (r: Vec<char>)
    ensures
        r@ == dashed(cs@),
{
    let mut out: Vec<char> = Vec::new();
    let mut i: usize = 0;
    while i < cs.len()
        invariant
            i <= cs.len(),
            out@ == dashed(cs@.take(i as int)),
        decreases cs.len() - i,
    {
        let c = cs[i];
        out.push(if c == '_' { '-' } else { c });
        i += 1;
        assert(dashed(cs@.take(i as int)) =~= dashed(cs@.take((i - 1) as int)).push(
            if c == '_' { '-' } else { c },
        ));
    }
    assert(cs@.take(cs.len() as int) =~= cs@);
    out
}

impl RenameRule {
    /// The rule a `rename_all` string names (`None` for an unknown one).
    pub fn parse(raw: &str) -> (r: Option<RenameRule>)
        ensures
            r == rename_rule_named(raw@),
    {
        if str_equal(raw, "lowercase") {
            Some(RenameRule::LowerCase)
        } else if str_equal(raw, "UPPERCASE") {
            Some(RenameRule::UpperCase)
        } else if str_equal(raw, "PascalCase") {
            Some(RenameRule::PascalCase)
        } else if str_equal(raw, "camelCase") {
            Some(RenameRule::CamelCase)
        } else if str_equal(raw, "snake_case") {
            Some(RenameRule::SnakeCase)
        } else if str_equal(raw, "SCREAMING_SNAKE_CASE") {
            Some(RenameRule::ScreamingSnakeCase)
        } else if str_equal(raw, "kebab-case") {
            Some(RenameRule::KebabCase)
        } else if str_equal(raw, "SCREAMING-KEBAB-CASE") {
            Some(RenameRule::ScreamingKebabCase)
        } else {
            None
        }
    }

    /// The key serde emits for a field named `ident` under this rule.
    pub fn apply(&self, ident: &str) -> (r: String)
        ensures
            r@ == renamed(*self, ident@),
    {
        let cs = chars_of(ident);
        let out = match self {
            RenameRule::LowerCase | RenameRule::SnakeCase => cs,
            RenameRule::UpperCase | RenameRule::ScreamingSnakeCase => map_upper(&cs),
            RenameRule::PascalCase => capitalized_words(ident),
            RenameRule::CamelCase => {
                let mut p = capitalized_words(ident);
                if p.len() > 0 {
                    let first = to_ascii_lower(p[0]);
                    let ghost before = p@;
                    p.set(0, first);
                    assert(p@ =~= seq![ascii_lower(before[0])] + before.drop_first());
                }
                p
            },
            RenameRule::KebabCase => map_dashed(&cs),
            RenameRule::ScreamingKebabCase => {
                let u = map_upper(&cs);
                map_dashed(&u)
            },
        };
        string_of(&out)
    }
}

/// What serde does with one field's key.
#[derive(Clone, Debug, PartialEq, Eq)]
pub enum KeyOutcome {
    /// Serde emits this key.
    Key(String),
    /// The field is never serialized (`skip` / `skip_serializing`).
    NeverSerialized,
    /// The key set depends on the value (`flatten`) or on attributes the
    /// derive cannot read, and has no static answer.
    Opaque,
}

/// A [`KeyOutcome`] with its key read as a character sequence.
pub enum KeyOutcomeView {
    Key(Seq<char>),
    NeverSerialized,
    Opaque,
}

impl View for KeyOutcome {
    type V = KeyOutcomeView;

    open spec fn view(&self) -> KeyOutcomeView {
        match self {
            KeyOutcome::Key(k) => KeyOutcomeView::Key(k@),
            KeyOutcome::NeverSerialized => KeyOutcomeView::NeverSerialized,
            KeyOutcome::Opaque => KeyOutcomeView::Opaque,
        }
    }
}

/// One field's name paired with what serde does with its key.
#[derive(Clone, Debug)]
pub struct FieldKey {
    /// The Rust field name.
    pub ident: String,
    /// What serde emits for it.
    pub outcome: KeyOutcome,
}

impl FieldKey {
    /// True when `token` names this field under either spelling: its Rust
    /// name or the key serde emits.
    pub fn matches(&self, token: &str) -> (b: bool)
        ensures
            b == (token@ == self.ident@ || (self.outcome matches KeyOutcome::Key(k) && k@ == token@)),
    {
        if str_equal(token, self.ident.as_str()) {
            return true;
        }
        match &self.outcome {
            KeyOutcome::Key(k) => str_equal(k.as_str(), token),
            _ => false,
        }
    }
}

/// What a field's `#[serde(...)]` attributes say, as read by the derive.
#[derive(Clone, Debug)]
pub struct FieldAttrs {
    /// The last readable `rename = ".."` / `rename(serialize = "..")` value.
    pub rename: Option<String>,
    /// A `rename` whose serialize-side value could not be read.
    pub rename_unreadable: bool,
    /// `skip` or `skip_serializing` is present.
    pub skipped: bool,
    /// `flatten` is present.
    pub flattened: bool,
    /// Some serde attribute on the field failed to parse.
    pub malformed: bool,
}

/// The key outcome serde's attributes give a field named `ident`, under
/// the container's `rename_all` rule: an unparseable attribute makes it
/// opaque; `skip` wins over everything else; `flatten` or an unreadable
/// rename makes it opaque; an explicit rename wins over the rule.
pub open spec fn field_outcome_of(ident: Seq<char>, attrs: FieldAttrs, rule: Option<RenameRule>) -> Option<Seq<char>> {
    if attrs.malformed || attrs.skipped || attrs.flattened || attrs.rename_unreadable {
        None
    } else {
        match attrs.rename {
            Some(k) => Some(k@),
            None => match rule {
                Some(r) => Some(renamed(r, ident)),
                None => Some(ident),
            },
        }
    }
}

/// Resolves one field's serialized key from its serde attributes and the
/// container's `rename_all` rule.
pub fn field_key(ident: String, attrs: &FieldAttrs, rule: Option<RenameRule>) -> (r: FieldKey)
    ensures
        r.ident@ == ident@,
        attrs.malformed ==> r.outcome is Opaque,
        !attrs.malformed && attrs.skipped ==> r.outcome is NeverSerialized,
        !attrs.malformed && !attrs.skipped && (attrs.flattened || attrs.rename_unreadable) ==> r.outcome is Opaque,
        field_outcome_of(ident@, *attrs, rule) matches Some(k) ==> (r.outcome matches KeyOutcome::Key(key) && key@ == k),
{
    let outcome = if attrs.malformed {
        KeyOutcome::Opaque
    } else if attrs.skipped {
        KeyOutcome::NeverSerialized
    } else if attrs.flattened || attrs.rename_unreadable {
        KeyOutcome::Opaque
    } else {
        match &attrs.rename {
            Some(k) => KeyOutcome::Key(k.clone()),
            None => match rule {
                Some(r) => KeyOutcome::Key(r.apply(ident.as_str())),
                None => KeyOutcome::Key(ident.clone()),
            },
        }
    };
    FieldKey { ident, outcome }
}

/// Whether some field's key set has no static answer.
pub open spec fn any_opaque(keys: Seq<FieldKey>) -> bool {
    exists|i: int| 0 <= i < keys.len() && #[trigger] keys[i].outcome is Opaque
}

/// The keys serde emits, in field order (never-serialized fields left out).
pub open spec fn emitted_keys(keys: Seq<FieldKey>) -> Seq<Seq<char>>
    decreases keys.len(),
{
    if keys.len() == 0 {
        Seq::empty()
    } else {
        let prefix = emitted_keys(keys.drop_last());
        match keys.last().outcome {
            KeyOutcome::Key(k) => prefix.push(k@),
            _ => prefix,
        }
    }
}

/// The serialized keys a model can reference, or `None` when any field's
/// key is not statically knowable (the type is then exempt from checking).
pub fn serialized_keys(keys: &Vec<FieldKey>) -> (r: Option<Vec<String>>)
    ensures
        any_opaque(keys@) ==> r is None,
        !any_opaque(keys@) ==> (r matches Some(v) && v@.map_values(|s: String| s@) == emitted_keys(keys@)),
{
    let mut out: Vec<String> = Vec::new();
    let mut i: usize = 0;
    while i < keys.len()
        invariant
            i <= keys.len(),
            !any_opaque(keys@.take(i as int)),
            out@.map_values(|s: String| s@) == emitted_keys(keys@.take(i as int)),
        decreases keys.len() - i,
    {
        let ghost prefix = keys@.take(i as int);
        assert(keys@.take(i + 1).drop_last() =~= prefix);
        match &keys[i].outcome {
            KeyOutcome::Key(k) => {
                out.push(k.clone());
                assert(out@.map_values(|s: String| s@) =~= emitted_keys(prefix).push(k@));
            },
            KeyOutcome::NeverSerialized => {},
            KeyOutcome::Opaque => {
                assert(keys@[i as int].outcome is Opaque);
                return None;
            },
        }
        i += 1;
        assert(!any_opaque(keys@.take(i as int))) by {
            if any_opaque(keys@.take(i as int)) {
                let j = choose|j: int| 0 <= j < i && #[trigger] keys@.take(i as int)[j].outcome is Opaque;
                assert(keys@.take(i as int)[j] == keys@[j]);
                if j < i - 1 {
                    assert(prefix[j] == keys@[j]);
                }
            }
        }
    }
    assert(keys@.take(keys.len() as int) =~= keys@);
    Some(out)
}

/// The segments of `s` between occurrences of `sep`, read left to right
/// (`a``b` gives `a`, empty, `b`; the empty string gives one empty segment).
pub open spec fn split_on(s: Seq<char>, sep: char) -> Seq<Seq<char>>
    decreases s.len(),
{
    if s.len() == 0 {
        seq![Seq::empty()]
    } else {
        let prefix = split_on(s.drop_last(), sep);
        if s.last() == sep {
            prefix.push(Seq::empty())
        } else {
            prefix.update(prefix.len() - 1, prefix.last().push(s.last()))
        }
    }
}

/// The non-empty segments at odd positions: the text inside backtick pairs.
pub open spec fn odd_tokens(segments: Seq<Seq<char>>) -> Seq<Seq<char>>
    decreases segments.len(),
{
    if segments.len() == 0 {
        Seq::empty()
    } else {
        let prefix = odd_tokens(segments.drop_last());
        if (segments.len() - 1) % 2 == 1 && segments.last().len() > 0 {
            prefix.push(segments.last())
        } else {
            prefix
        }
    }
}

/// The backtick reference tokens of a question text: every other segment
/// between backticks, starting with the second, left out when empty (an
/// empty pair is a prose artifact, not a reference).
pub open spec fn backtick_tokens(s: Seq<char>) -> Seq<Seq<char>> {
    odd_tokens(split_on(s, '`'))
}

proof fn lemma_split_len(s: Seq<char>, sep: char)
    ensures
        split_on(s, sep).len() >= 1,
    decreases s.len(),
{
    if s.len() > 0 {
        lemma_split_len(s.drop_last(), sep);
    }
}

/// A text without the separator is a single segment.
proof fn lemma_split_without_sep(s: Seq<char>, sep: char)
    requires
        !s.contains(sep),
    ensures
        split_on(s, sep) == seq![s],
    decreases s.len(),
{
    if s.len() > 0 {
        assert(!s.drop_last().contains(sep)) by {
            if s.drop_last().contains(sep) {
                let i = choose|i: int| 0 <= i < s.drop_last().len() && s.drop_last()[i] == sep;
                assert(s[i] == sep);
            }
        }
        lemma_split_without_sep(s.drop_last(), sep);
        assert(s.last() != sep) by {
            assert(s[s.len() - 1] == s.last());
        }
        assert(s.drop_last().push(s.last()) =~= s);
        assert(seq![s.drop_last()].update(0, s.drop_last().push(s.last())) =~= seq![s]);
    } else {
        assert(s =~= Seq::<char>::empty());
    }
}

/// A question text without a backtick references nothing.
pub proof fn lemma_backtick_free(s: Seq<char>)
    requires
        !s.contains('`'),
    ensures
        backtick_tokens(s) == Seq::<Seq<char>>::empty(),
{
    lemma_split_without_sep(s, '`');
    let segs = seq![s];
    assert(segs.drop_last() =~= Seq::<Seq<char>>::empty());
    assert(odd_tokens(segs.drop_last()) == Seq::<Seq<char>>::empty());
}

fn split_chars(cs: &Vec<char>, sep: char) -> (r: Vec<Vec<char>>)
    ensures
        r@.len() == split_on(cs@, sep).len(),
        forall|i: int| 0 <= i < r@.len() ==> (#[trigger] r@[i])@ == split_on(cs@, sep)[i],
{
    let mut segments: Vec<Vec<char>> = Vec::new();
    let mut current: Vec<char> = Vec::new();
    let mut i: usize = 0;
    proof {
        assert(cs@.take(0) =~= Seq::<char>::empty());
    }
    while i < cs.len()
        invariant
            i <= cs.len(),
            segments@.len() + 1 == split_on(cs@.take(i as int), sep).len(),
            forall|j: int| 0 <= j < segments@.len() ==> (#[trigger] segments@[j])@ == split_on(cs@.take(i as int), sep)[j],
            current@ == split_on(cs@.take(i as int), sep).last(),
        decreases cs.len() - i,
    {
        let c = cs[i];
        let ghost before = split_on(cs@.take(i as int), sep);
        assert(cs@.take(i + 1).drop_last() =~= cs@.take(i as int));
        assert(cs@.take(i + 1).last() == c);
        if c == sep {
            let done = current;
            segments.push(done);
            current = Vec::new();
        } else {
            current.push(c);
        }
        i += 1;
    }
    assert(cs@.take(cs.len() as int) =~= cs@);
    proof {
        lemma_split_len(cs@, sep);
    }
    segments.push(current);
    segments
}

/// Extracts the backtick reference tokens of a question text.
pub fn backtick_refs(question: &str) -> (r: Vec<String>)
    ensures
        r@.map_values(|s: String| s@) == backtick_tokens(question@),
{
    let cs = chars_of(question);
    let segments = split_chars(&cs, '`');
    let ghost segs = split_on(question@, '`');
    let mut out: Vec<String> = Vec::new();
    let mut i: usize = 0;
    while i < segments.len()
        invariant
            i <= segments.len(),
            cs@ == question@,
            segments@.len() == segs.len(),
            forall|j: int| 0 <= j < segments@.len() ==> (#[trigger] segments@[j])@ == segs[j],
            out@.map_values(|s: String| s@) == odd_tokens(segs.take(i as int)),
        decreases segments.len() - i,
    {
        assert(segs.take(i + 1).drop_last() =~= segs.take(i as int));
        assert(segs.take(i + 1).last() == segments@[i as int]@);
        if i % 2 == 1 && segments[i].len() > 0 {
            out.push(string_of(&segments[i]));
            assert(out@.map_values(|s: String| s@) =~= odd_tokens(segs.take(i as int)).push(segments@[i as int]@));
        }
        i += 1;
    }
    assert(segs.take(segments.len() as int) =~= segs);
    out
}

/// A word with its first character ASCII-uppercased.
pub open spec fn capitalized(w: Seq<char>) -> Seq<char> {
    if w.len() == 0 {
        w
    } else {
        seq![ascii_upper(w[0])] + w.drop_first()
    }
}

/// The capitalized words, joined.
pub open spec fn pascal_words(ws: Seq<Seq<char>>) -> Seq<char>
    decreases ws.len(),
{
    if ws.len() == 0 {
        Seq::empty()
    } else {
        pascal_words(ws.drop_last()) + capitalized(ws.last())
    }
}

/// Whether serde's PascalCase is about to capitalize after reading `s`
/// from the state `capitalize`: after a `_`, or before anything was read.
pub open spec fn capitalizing_after(s: Seq<char>, capitalize: bool) -> bool {
    if s.len() == 0 {
        capitalize
    } else {
        s.last() == '_'
    }
}

proof fn lemma_pascal_push(s: Seq<char>, c: char, capitalize: bool)
    ensures
        pascal_from(s.push(c), capitalize) == pascal_from(s, capitalize) + (if c == '_' {
            Seq::<char>::empty()
        } else if capitalizing_after(s, capitalize) {
            seq![ascii_upper(c)]
        } else {
            seq![c]
        }),
    decreases s.len(),
{
    let tail = if c == '_' {
        Seq::<char>::empty()
    } else if capitalizing_after(s, capitalize) {
        seq![ascii_upper(c)]
    } else {
        seq![c]
    };
    let sc = s.push(c);
    assert(sc.len() > 0);
    assert(sc[0] == (if s.len() == 0 { c } else { s[0] }));
    if s.len() == 0 {
        assert(sc.drop_first() =~= Seq::<char>::empty());
        assert(pascal_from(Seq::<char>::empty(), true) =~= Seq::<char>::empty());
        assert(pascal_from(Seq::<char>::empty(), false) =~= Seq::<char>::empty());
        assert(pascal_from(s, capitalize) =~= Seq::<char>::empty());
        if c == '_' {
            assert(pascal_from(sc, capitalize) == pascal_from(sc.drop_first(), true));
        } else if capitalize {
            assert(pascal_from(sc, capitalize) == seq![ascii_upper(c)] + pascal_from(sc.drop_first(), false));
            assert(seq![ascii_upper(c)] + Seq::<char>::empty() =~= seq![ascii_upper(c)]);
        } else {
            assert(pascal_from(sc, capitalize) == seq![c] + pascal_from(sc.drop_first(), false));
            assert(seq![c] + Seq::<char>::empty() =~= seq![c]);
        }
        assert(Seq::<char>::empty() + tail =~= tail);
    } else {
        let rest = s.drop_first();
        assert(sc.drop_first() =~= rest.push(c));
        let inner = if s[0] == '_' { true } else { false };
        lemma_pascal_push(rest, c, inner);
        if rest.len() == 0 {
            assert(s.last() == s[0]);
        } else {
            assert(rest.last() == s.last());
        }
        assert(capitalizing_after(rest, inner) == capitalizing_after(s, capitalize));
        if s[0] == '_' {
            assert(pascal_from(sc, capitalize) == pascal_from(rest.push(c), true));
            assert(pascal_from(s, capitalize) == pascal_from(rest, true));
        } else {
            let head = if capitalize { seq![ascii_upper(s[0])] } else { seq![s[0]] };
            assert(pascal_from(sc, capitalize) == head + pascal_from(rest.push(c), false));
            assert(pascal_from(s, capitalize) == head + pascal_from(rest, false));
            assert(head + (pascal_from(rest, false) + tail) =~= (head + pascal_from(rest, false)) + tail);
        }
    }
}

proof fn lemma_last_word_empty(s: Seq<char>)
    ensures
        split_on(s, '_').len() >= 1,
        (split_on(s, '_').last().len() == 0) == capitalizing_after(s, true),
    decreases s.len(),
{
    lemma_split_len(s, '_');
    if s.len() > 0 {
        lemma_last_word_empty(s.drop_last());
    }
}

/// serde's PascalCase of a field name, read character by character, is
/// the field's `_`-separated words, each with its first character
/// capitalized, joined: serde splits on `_` and on nothing else.
pub proof fn lemma_pascal_is_capitalized_words(s: Seq<char>)
    ensures
        pascal_from(s, true) == pascal_words(split_on(s, '_')),
    decreases s.len(),
{
    if s.len() == 0 {
        let one = seq![Seq::<char>::empty()];
        assert(split_on(s, '_') == one);
        assert(one.drop_last() =~= Seq::<Seq<char>>::empty());
        assert(one.last() == Seq::<char>::empty());
        assert(capitalized(Seq::<char>::empty()) == Seq::<char>::empty());
        assert(pascal_words(one) == pascal_words(one.drop_last()) + capitalized(one.last()));
        assert(Seq::<char>::empty() + Seq::<char>::empty() =~= Seq::<char>::empty());
        assert(pascal_from(s, true) =~= Seq::<char>::empty());
    } else {
        let p = s.drop_last();
        let c = s.last();
        assert(p.push(c) =~= s);
        lemma_pascal_is_capitalized_words(p);
        lemma_pascal_push(p, c, true);
        lemma_last_word_empty(p);
        let prefix = split_on(p, '_');
        if c == '_' {
            assert(split_on(s, '_') == prefix.push(Seq::<char>::empty()));
            assert(prefix.push(Seq::<char>::empty()).drop_last() =~= prefix);
            assert(pascal_from(s, true) =~= pascal_from(p, true) + Seq::<char>::empty());
        } else {
            let w = prefix.last();
            let updated = prefix.update(prefix.len() - 1, w.push(c));
            assert(split_on(s, '_') == updated);
            assert(updated.drop_last() =~= prefix.drop_last());
            assert(updated.last() == w.push(c));
            if w.len() == 0 {
                assert(w.push(c) =~= seq![c]);
                assert(seq![c].drop_first() =~= Seq::<char>::empty());
                assert(capitalized(w) =~= Seq::<char>::empty());
                assert(capitalized(w.push(c)) =~= seq![ascii_upper(c)]);
            } else {
                assert(w.push(c)[0] == w[0]);
                assert(w.push(c).drop_first() =~= w.drop_first().push(c));
                assert(capitalized(w.push(c)) =~= capitalized(w) + seq![c]);
            }
            assert(pascal_words(prefix) == pascal_words(prefix.drop_last()) + capitalized(w));
            assert(pascal_words(updated) =~= pascal_words(prefix) + (if w.len() == 0 {
                seq![ascii_upper(c)]
            } else {
                seq![c]
            }));
        }
    }
}

/// The `_`-separated words of a field name, empty ones included: the
/// words serde's renaming works on (it splits field names on `_` and on
/// nothing else).
pub fn underscore_words(ident: &str) -> (r: Vec<String>)
    ensures
        r@.map_values(|w: String| w@) == split_on(ident@, '_'),
{
    let cs = chars_of(ident);
    let segments = split_chars(&cs, '_');
    let ghost target = split_on(ident@, '_');
    let mut words: Vec<String> = Vec::new();
    let mut i: usize = 0;
    while i < segments.len()
        invariant
            i <= segments@.len(),
            cs@ == ident@,
            target == split_on(ident@, '_'),
            segments@.len() == target.len(),
            forall|j: int| 0 <= j < segments@.len() ==> (#[trigger] segments@[j])@ == target[j],
            words@.map_values(|w: String| w@) == target.take(i as int),
        decreases segments.len() - i,
    {
        let w = string_of(&segments[i]);
        assert(w@ == target[i as int]);
        let ghost prev = words@;
        words.push(w);
        assert(words@ == prev.push(w));
        assert(words@.map_values(|w: String| w@) =~= prev.map_values(|w: String| w@).push(w@));
        assert(target.take(i + 1) =~= target.take(i as int).push(target[i as int]));
        i += 1;
    }
    assert(target.take(i as int) =~= target);
    words
}

/// A word with its first character ASCII-uppercased.
pub fn capitalize_ascii(word: &str) -> (r: String)
    ensures
        r@ == capitalized(word@),
{
    let mut cs = chars_of(word);
    if cs.len() > 0 {
        let first = to_ascii_upper(cs[0]);
        let ghost before = cs@;
        cs.set(0, first);
        assert(cs@ =~= seq![ascii_upper(before[0])] + before.drop_first());
    }
    string_of(&cs)
}

fn capitalized_words(ident: &str) -> (r: Vec<char>)
    ensures
        r@ == pascal_from(ident@, true),
{
    let words = underscore_words(ident);
    let ghost ws = words@.map_values(|w: String| w@);
    let mut out: Vec<char> = Vec::new();
    let mut i: usize = 0;
    while i < words.len()
        invariant
            i <= words@.len(),
            ws == words@.map_values(|w: String| w@),
            out@ == pascal_words(ws.take(i as int)),
        decreases words.len() - i,
    {
        let word = capitalize_ascii(words[i].as_str());
        let mut chars = chars_of(word.as_str());
        let ghost before = out@;
        out.append(&mut chars);
        assert(ws.take(i + 1).drop_last() =~= ws.take(i as int));
        assert(ws.take(i + 1).last() == ws[i as int]);
        i += 1;
    }
    assert(ws.take(i as int) =~= ws);
    proof {
        lemma_pascal_is_capitalized_words(ident@);
    }
    out
}

/// The chunks of a name between `_` and `-` separators, empty ones
/// included.
pub open spec fn name_chunks(s: Seq<char>) -> Seq<Seq<char>> {
    split_on(s.map_values(|c: char| if c == '-' { '_' } else { c }), '_')
}

/// A character with what std's Unicode tables say of its class: whether
/// it is uppercase, lowercase, numeric.
#[derive(Clone, Copy, Debug, PartialEq, Eq, Structural)]
pub struct ClassedChar {
    pub c: char,
    pub upper: bool,
    pub lower: bool,
    pub numeric: bool,
}

/// A character with std's class facts.
pub open spec fn classed(c: char) -> ClassedChar {
    ClassedChar { c, upper: unicode_is_uppercase(c), lower: unicode_is_lowercase(c), numeric: unicode_is_numeric(c) }
}

/// The characters of `s`, each with std's class facts.
pub open spec fn classified(s: Seq<char>) -> Seq<ClassedChar> {
    s.map_values(|c: char| classed(c))
}

/// The plain characters of classified ones.
pub open spec fn plain(c: Seq<ClassedChar>) -> Seq<char> {
    c.map_values(|x: ClassedChar| x.c)
}

/// Whether the character at `i` of a chunk starts a new word: an
/// uppercase character that follows a lowercase or numeric one, or that
/// ends an uppercase run before a lowercase one (`XMLHttp` gives `XML`,
/// `Http`).
pub open spec fn starts_word(c: Seq<ClassedChar>, i: int) -> bool {
    &&& 0 < i < c.len()
    &&& c[i].upper
    &&& (c[i - 1].lower || c[i - 1].numeric || (i + 1 < c.len() && c[i + 1].lower))
}

/// The words of a chunk completed before position `n`, and where the word
/// in progress starts.
pub open spec fn words_before(c: Seq<ClassedChar>, n: int) -> (Seq<Seq<char>>, int)
    decreases n,
{
    if n <= 0 {
        (Seq::empty(), 0)
    } else {
        let (ws, start) = words_before(c, n - 1);
        if starts_word(c, n - 1) && n - 1 > start {
            (ws.push(plain(c).subrange(start, n - 1)), n - 1)
        } else {
            (ws, start)
        }
    }
}

/// The words of one chunk of classified characters: it is cut at every
/// word start; an empty chunk has none.
pub open spec fn classed_words(c: Seq<ClassedChar>) -> Seq<Seq<char>> {
    let (ws, start) = words_before(c, c.len() as int);
    if start < c.len() {
        ws.push(plain(c).subrange(start, c.len() as int))
    } else {
        ws
    }
}

/// The words of one chunk, by std's class facts of its characters.
pub open spec fn chunk_words(c: Seq<char>) -> Seq<Seq<char>> {
    classed_words(classified(c))
}

/// The words of every chunk, in order.
pub open spec fn words_of_chunks(chunks: Seq<Seq<char>>) -> Seq<Seq<char>>
    decreases chunks.len(),
{
    if chunks.len() == 0 {
        Seq::empty()
    } else {
        words_of_chunks(chunks.drop_last()) + chunk_words(chunks.last())
    }
}

/// The words of a name: its chunks between `_` and `-`, each cut at its
/// case boundaries.
pub open spec fn name_words(s: Seq<char>) -> Seq<Seq<char>> {
    words_of_chunks(name_chunks(s))
}

proof fn lemma_words_before_bounds(c: Seq<ClassedChar>, n: int)
    requires
        0 <= n <= c.len(),
    ensures
        0 <= words_before(c, n).1 <= n,
    decreases n,
{
    if n > 0 {
        lemma_words_before_bounds(c, n - 1);
    }
}

fn chars_between(cs: &Vec<char>, from: usize, to: usize) -> (r: String)
    requires
        from <= to <= cs@.len(),
    ensures
        r@ == cs@.subrange(from as int, to as int),
{
    let mut out: Vec<char> = Vec::new();
    let mut i: usize = from;
    while i < to
        invariant
            from <= i <= to <= cs@.len(),
            out@ == cs@.subrange(from as int, i as int),
        decreases to - i,
    {
        out.push(cs[i]);
        i += 1;
        assert(out@ =~= cs@.subrange(from as int, i as int));
    }
    string_of(&out)
}

proof fn lemma_classified_push(s: Seq<char>, c: char)
    ensures
        classified(s.push(c)) == classified(s).push(classed(c)),
{
    assert(classified(s.push(c)) =~= classified(s).push(classed(c)));
}

/// Classifies each character by std's Unicode tables.
fn classify(c: &Vec<char>) -> (r: Vec<ClassedChar>)
    ensures
        r@ == classified(c@),
{
    let mut out: Vec<ClassedChar> = Vec::new();
    let mut i: usize = 0;
    assert(classified(c@.take(0)) =~= Seq::<ClassedChar>::empty());
    while i < c.len()
        invariant
            i <= c@.len(),
            out@ == classified(c@.take(i as int)),
        decreases c.len() - i,
    {
        let ch = c[i];
        let x = ClassedChar { c: ch, upper: is_uppercase(ch), lower: is_lowercase(ch), numeric: is_numeric(ch) };
        out.push(x);
        proof {
            lemma_classified_push(c@.take(i as int), ch);
            assert(c@.take(i + 1) =~= c@.take(i as int).push(ch));
        }
        i += 1;
    }
    assert(c@.take(c.len() as int) =~= c@);
    out
}

/// The words of one chunk (a name part between separators) whose
/// characters carry their class facts: it is cut at every uppercase
/// character that follows a lowercase or numeric one, or that ends an
/// uppercase run before a lowercase one.
pub fn classed_chunk_words(c: &Vec<ClassedChar>) -> (r: Vec<String>)
    ensures
        r@.map_values(|w: String| w@) == classed_words(c@),
{
    let mut chars: Vec<char> = Vec::new();
    let mut k: usize = 0;
    while k < c.len()
        invariant
            k <= c@.len(),
            chars@ == plain(c@.take(k as int)),
        decreases c.len() - k,
    {
        chars.push(c[k].c);
        k += 1;
        assert(chars@ =~= plain(c@.take(k as int)));
    }
    assert(c@.take(c.len() as int) =~= c@);
    let mut words: Vec<String> = Vec::new();
    let mut start: usize = 0;
    let mut i: usize = 0;
    while i < c.len()
        invariant
            i <= c@.len(),
            chars@ == plain(c@),
            words_before(c@, i as int) == (words@.map_values(|w: String| w@), start as int),
        decreases c.len() - i,
    {
        proof {
            lemma_words_before_bounds(c@, i as int);
        }
        let mut boundary = false;
        if c[i].upper && i != 0 {
            boundary = c[i - 1].lower || c[i - 1].numeric || (i + 1 < c.len() && c[i + 1].lower);
        }
        assert(boundary == starts_word(c@, i as int));
        if boundary && i > start {
            let w = chars_between(&chars, start, i);
            let ghost prev = words@;
            words.push(w);
            assert(words@.map_values(|w: String| w@) =~= prev.map_values(|w: String| w@).push(plain(c@).subrange(start as int, i as int)));
            start = i;
        }
        i += 1;
    }
    proof {
        lemma_words_before_bounds(c@, c@.len() as int);
    }
    if start < c.len() {
        let w = chars_between(&chars, start, c.len());
        let ghost prev = words@;
        words.push(w);
        assert(words@.map_values(|w: String| w@) =~= prev.map_values(|w: String| w@).push(plain(c@).subrange(start as int, c@.len() as int)));
    }
    words
}

fn chunk_words_of(c: &Vec<char>) -> (r: Vec<String>)
    ensures
        r@.map_values(|w: String| w@) == chunk_words(c@),
{
    let classes = classify(c);
    classed_chunk_words(&classes)
}

/// Splits a name into words: on `_` and `-`, then inside each chunk at
/// every uppercase character that follows a lowercase or numeric one, or
/// that ends an uppercase run before a lowercase one (`XMLHttp` gives
/// `XML` and `Http`). Empty chunks give no word.
pub fn split_words(ident: &str) -> (r: Vec<String>)
    ensures
        r@.map_values(|w: String| w@) == name_words(ident@),
{
    let cs = chars_of(ident);
    let mut undashed: Vec<char> = Vec::new();
    let mut i: usize = 0;
    while i < cs.len()
        invariant
            i <= cs@.len(),
            undashed@ == cs@.take(i as int).map_values(|c: char| if c == '-' { '_' } else { c }),
        decreases cs.len() - i,
    {
        let c = cs[i];
        undashed.push(if c == '-' { '_' } else { c });
        i += 1;
        assert(undashed@ =~= cs@.take(i as int).map_values(|c: char| if c == '-' { '_' } else { c }));
    }
    assert(cs@.take(cs.len() as int) =~= cs@);
    let chunks = split_chars(&undashed, '_');
    let ghost target = name_chunks(ident@);
    let mut words: Vec<String> = Vec::new();
    let mut k: usize = 0;
    while k < chunks.len()
        invariant
            k <= chunks@.len(),
            chunks@.len() == target.len(),
            forall|j: int| 0 <= j < chunks@.len() ==> (#[trigger] chunks@[j])@ == target[j],
            words@.map_values(|w: String| w@) == words_of_chunks(target.take(k as int)),
        decreases chunks.len() - k,
    {
        let mut ws = chunk_words_of(&chunks[k]);
        let ghost prev = words@;
        let ghost added = ws@;
        words.append(&mut ws);
        assert(target.take(k + 1).drop_last() =~= target.take(k as int));
        assert(target.take(k + 1).last() == target[k as int]);
        assert(words@.map_values(|w: String| w@) =~= prev.map_values(|w: String| w@) + added.map_values(|w: String| w@));
        k += 1;
    }
    assert(target.take(k as int) =~= target);
    words
}

/// A word with its first character uppercased by std's Unicode tables.
pub open spec fn capitalized_unicode(w: Seq<char>) -> Seq<char> {
    if w.len() == 0 {
        w
    } else {
        unicode_uppercase(w[0]) + w.drop_first()
    }
}

/// A word with its first character uppercased (by std's Unicode tables)
/// and the rest kept.
pub fn capitalize(word: &str) -> (r: String)
    ensures
        r@ == capitalized_unicode(word@),
{
    let cs = chars_of(word);
    if cs.len() == 0 {
        return string_of(&cs);
    }
    let mut out = uppercase(cs[0]);
    let mut i: usize = 1;
    let ghost head = out@;
    while i < cs.len()
        invariant
            1 <= i <= cs@.len(),
            out@ == head + cs@.subrange(1, i as int),
        decreases cs.len() - i,
    {
        out.push(cs[i]);
        i += 1;
        assert(out@ =~= head + cs@.subrange(1, i as int));
    }
    assert(cs@.subrange(1, cs@.len() as int) =~= cs@.drop_first());
    string_of(&out)
}

} // verus!
