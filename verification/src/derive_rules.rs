//! The rules the question derives enforce on the types they are put on:
//! choice variants and their option keys, score rubrics, noul poles, and
//! the backtick references of structured question contracts.

use vstd::prelude::*;

use crate::naming::{backtick_refs, backtick_tokens, emitted_keys, any_opaque, serialized_keys, snake_case, to_snake_case, FieldKey, KeyOutcome};
use crate::text::{str_equal};

verus! {

/// One enum variant as a choice or score derive reads it.
#[derive(Clone, Debug)]
pub struct VariantInfo {
    /// The variant's name.
    pub ident: String,
    /// Whether it is a unit variant.
    pub unit: bool,
    /// Its `#[jev(option = "..")]` key, if given.
    pub option: Option<String>,
    /// Its `#[jev(criteria = "..")]` text, if given.
    pub criteria: Option<String>,
}

/// Why a derive refuses the type it is put on.
#[derive(Clone, Debug, PartialEq, Eq)]
pub enum DeriveFault {
    /// A variant with fields.
    NonUnitVariant { ident: String },
    /// Two variants share an option key.
    DuplicateOptionKey { key: String },
    /// A choice enum without variants.
    NoVariants,
    /// More than 255 options.
    TooManyOptions,
    /// A rubric outside 2..=10 levels.
    LevelCount { found: usize },
    /// Criteria on some variants but not all.
    MixedCriteria,
    /// A noul with only one of its two poles described.
    OnePole,
    /// A question reference to a field serde never serializes.
    SkippedFieldReference { token: String, field: String },
    /// A question reference to a key the serialized data does not carry;
    /// `renamed_as` is the key the field of that name serializes as.
    UnknownDataReference { token: String, available: Vec<String>, renamed_as: Option<String> },
}

/// The option key of a variant: its explicit key, or its snake-cased name.
pub open spec fn option_key_of(v: VariantInfo) -> Seq<char> {
    match v.option {
        Some(k) => k@,
        None => snake_case(v.ident@),
    }
}

/// The first variant (in order) that has fields, or whose option key an
/// earlier variant already uses.
pub open spec fn variant_fails(vs: Seq<VariantInfo>, i: int) -> bool {
    !vs[i].unit || exists|j: int| 0 <= j < i && #[trigger] option_key_of(vs[j]) == option_key_of(vs[i])
}

/// Whether criteria are given on every variant or on none.
pub open spec fn criteria_uniform(vs: Seq<VariantInfo>) -> bool {
    (forall|i: int| 0 <= i < vs.len() ==> (#[trigger] vs[i]).criteria is Some)
        || (forall|i: int| 0 <= i < vs.len() ==> (#[trigger] vs[i]).criteria is None)
}


/// The first variant that has fields or repeats an earlier option key.
pub open spec fn first_failing_variant(vs: Seq<VariantInfo>) -> Option<int> {
    if exists|i: int| 0 <= i < vs.len() && #[trigger] variant_fails(vs, i) {
        Some(choose|i: int| 0 <= i < vs.len() && #[trigger] variant_fails(vs, i) && forall|j: int| 0 <= j < i ==> !#[trigger] variant_fails(vs, j))
    } else {
        None
    }
}


proof fn lemma_first_failing_is(vs: Seq<VariantInfo>, i: int)
    requires
        0 <= i < vs.len(),
        variant_fails(vs, i),
        forall|j: int| 0 <= j < i ==> !#[trigger] variant_fails(vs, j),
    ensures
        first_failing_variant(vs) == Some(i),
{
    let c = choose|c: int| 0 <= c < vs.len() && #[trigger] variant_fails(vs, c) && forall|j: int| 0 <= j < c ==> !#[trigger] variant_fails(vs, j);
    if c < i {
        assert(!variant_fails(vs, c));
    } else if c > i {
        assert(!variant_fails(vs, i));
    }
}

/// A choice enum's variants pass the variant checks exactly when every
/// one is a unit variant and no two of them share an option key.
pub proof fn lemma_variants_pass_exactly_when_keys_distinct(vs: Seq<VariantInfo>)
    ensures
        first_failing_variant(vs) is None <==> {
            &&& forall|i: int| 0 <= i < vs.len() ==> (#[trigger] vs[i]).unit
            &&& forall|i: int, j: int| 0 <= i < vs.len() && 0 <= j < vs.len() && i != j
                ==> option_key_of(#[trigger] vs[i]) != option_key_of(#[trigger] vs[j])
        },
{
    if first_failing_variant(vs) is None {
        assert(!exists|i: int| 0 <= i < vs.len() && #[trigger] variant_fails(vs, i));
        assert forall|i: int| 0 <= i < vs.len() implies (#[trigger] vs[i]).unit by {
            assert(!variant_fails(vs, i));
        }
        assert forall|i: int, j: int| 0 <= i < vs.len() && 0 <= j < vs.len() && i != j
            implies option_key_of(#[trigger] vs[i]) != option_key_of(#[trigger] vs[j]) by {
            if i < j {
                assert(!variant_fails(vs, j));
            } else {
                assert(!variant_fails(vs, i));
            }
        }
    } else {
        let i = choose|i: int| 0 <= i < vs.len() && #[trigger] variant_fails(vs, i);
        if vs[i].unit {
            let j = choose|j: int| 0 <= j < i && #[trigger] option_key_of(vs[j]) == option_key_of(vs[i]);
            assert(option_key_of(vs[j]) == option_key_of(vs[i]));
        }
    }
}

fn option_key(v: &VariantInfo) -> (r: String)
    ensures
        r@ == option_key_of(*v),
{
    match &v.option {
        Some(k) => k.clone(),
        None => to_snake_case(v.ident.as_str()),
    }
}

/// Checks a choice enum, in this order: every variant is a unit variant
/// whose option key no earlier variant uses (the first that is not is
/// reported), there are 1 to 255 of them, and criteria are on all or
/// none. The instructions' backtick references are not read here: they
/// are root-checked when the question set composes. On success the option
/// keys and criteria come back in variant order.
pub fn check_choice(variants: &Vec<VariantInfo>) -> (r: Result<Vec<(String, Option<String>)>, DeriveFault>)
    ensures
        r matches Ok(keys) ==> 1 <= keys@.len() <= 255 && forall|i: int, j: int| 0 <= i < keys@.len() && 0 <= j < keys@.len() && i != j
            ==> (#[trigger] keys@[i]).0@ != (#[trigger] keys@[j]).0@,
        (exists|i: int, j: int| 0 <= i < variants@.len() && 0 <= j < variants@.len() && i != j
            && option_key_of(#[trigger] variants@[i]) == option_key_of(#[trigger] variants@[j])) ==> r is Err,
        (exists|i: int| 0 <= i < variants@.len() && !(#[trigger] variants@[i]).unit) ==> r is Err,
        match first_failing_variant(variants@) {
            Some(i) => if !variants@[i].unit {
                r matches Err(DeriveFault::NonUnitVariant { ident }) && ident@ == variants@[i].ident@
            } else {
                r matches Err(DeriveFault::DuplicateOptionKey { key }) && key@ == option_key_of(variants@[i])
            },
            None => if variants@.len() == 0 {
                r == Err::<Vec<(String, Option<String>)>, DeriveFault>(DeriveFault::NoVariants)
            } else if variants@.len() > 255 {
                r == Err::<Vec<(String, Option<String>)>, DeriveFault>(DeriveFault::TooManyOptions)
            } else if !criteria_uniform(variants@) {
                r == Err::<Vec<(String, Option<String>)>, DeriveFault>(DeriveFault::MixedCriteria)
            } else {
                r matches Ok(keys) && keys@.len() == variants@.len()
                    && forall|i: int| 0 <= i < keys@.len() ==> (#[trigger] keys@[i]).0@ == option_key_of(variants@[i]) && keys@[i].1 == variants@[i].criteria
            },
        },
{
    let mut keys: Vec<(String, Option<String>)> = Vec::new();
    let mut i: usize = 0;
    while i < variants.len()
        invariant
            i <= variants@.len(),
            keys@.len() == i,
            forall|j: int| 0 <= j < i ==> !#[trigger] variant_fails(variants@, j),
            forall|j: int| 0 <= j < i ==> (#[trigger] keys@[j]).0@ == option_key_of(variants@[j]) && keys@[j].1 == variants@[j].criteria,
        decreases variants.len() - i,
    {
        let v = &variants[i];
        if !v.unit {
            proof {
                lemma_first_failing_is(variants@, i as int);
            }
            return Err(DeriveFault::NonUnitVariant { ident: v.ident.clone() });
        }
        let key = option_key(v);
        let mut j: usize = 0;
        while j < keys.len()
            invariant
                j <= keys@.len(),
                keys@.len() == i,
                i < variants@.len(),
                key@ == option_key_of(variants@[i as int]),
                variants@[i as int].unit,
                forall|x: int| 0 <= x < i ==> !#[trigger] variant_fails(variants@, x),
                forall|x: int| 0 <= x < i ==> (#[trigger] keys@[x]).0@ == option_key_of(variants@[x]),
                forall|x: int| 0 <= x < j ==> option_key_of(#[trigger] variants@[x]) != key@,
            decreases keys.len() - j,
        {
            if str_equal(keys[j].0.as_str(), key.as_str()) {
                proof {
                    assert(option_key_of(variants@[j as int]) == option_key_of(variants@[i as int]));
                    assert(variant_fails(variants@, i as int));
                    lemma_first_failing_is(variants@, i as int);
                }
                return Err(DeriveFault::DuplicateOptionKey { key });
            }
            j += 1;
        }
        proof {
            assert(!variant_fails(variants@, i as int));
        }
        keys.push((key, v.criteria.clone()));
        i += 1;
    }
    proof {
        assert(first_failing_variant(variants@) is None);
        lemma_variants_pass_exactly_when_keys_distinct(variants@);
        assert forall|a: int, b: int| 0 <= a < keys@.len() && 0 <= b < keys@.len() && a != b
            implies (#[trigger] keys@[a]).0@ != (#[trigger] keys@[b]).0@ by {
            assert(option_key_of(variants@[a]) != option_key_of(variants@[b]));
        }
    }
    if keys.len() == 0 {
        return Err(DeriveFault::NoVariants);
    }
    if keys.len() > 255 {
        return Err(DeriveFault::TooManyOptions);
    }
    let mut all_static = true;
    let mut none_static = true;
    let mut k: usize = 0;
    while k < variants.len()
        invariant
            k <= variants@.len(),
            all_static == forall|x: int| 0 <= x < k ==> (#[trigger] variants@[x]).criteria is Some,
            none_static == forall|x: int| 0 <= x < k ==> (#[trigger] variants@[x]).criteria is None,
        decreases variants.len() - k,
    {
        if variants[k].criteria.is_some() {
            none_static = false;
        } else {
            all_static = false;
        }
        k += 1;
    }
    if !all_static && !none_static {
        return Err(DeriveFault::MixedCriteria);
    }
    Ok(keys)
}

/// The first variant (in order) that has fields.
pub open spec fn first_non_unit(vs: Seq<VariantInfo>) -> Option<int> {
    if exists|i: int| 0 <= i < vs.len() && !(#[trigger] vs[i]).unit {
        Some(choose|i: int| 0 <= i < vs.len() && !(#[trigger] vs[i]).unit && forall|j: int| 0 <= j < i ==> (#[trigger] vs[j]).unit)
    } else {
        None
    }
}

/// Checks a score enum: unit variants (the first with fields is
/// reported), 2..=10 of them, criteria on all or none. On success the
/// level count and each level's criteria come back in level order.
pub fn check_score(variants: &Vec<VariantInfo>) -> (r: Result<(u8, Vec<Option<String>>), DeriveFault>)
    ensures
        match first_non_unit(variants@) {
            Some(i) => r matches Err(DeriveFault::NonUnitVariant { ident }) && ident@ == variants@[i].ident@,
            None => if !(2 <= variants@.len() <= 10) {
                r == Err::<(u8, Vec<Option<String>>), DeriveFault>(DeriveFault::LevelCount { found: variants@.len() as usize })
            } else if !criteria_uniform(variants@) {
                r == Err::<(u8, Vec<Option<String>>), DeriveFault>(DeriveFault::MixedCriteria)
            } else {
                r matches Ok((levels, criteria)) && levels as int == variants@.len() && criteria@.len() == variants@.len()
                    && forall|i: int| 0 <= i < criteria@.len() ==> #[trigger] criteria@[i] == variants@[i].criteria
            },
        },
{
    let mut criteria: Vec<Option<String>> = Vec::new();
    let mut i: usize = 0;
    while i < variants.len()
        invariant
            i <= variants@.len(),
            criteria@.len() == i,
            forall|j: int| 0 <= j < i ==> (#[trigger] variants@[j]).unit,
            forall|j: int| 0 <= j < i ==> #[trigger] criteria@[j] == variants@[j].criteria,
        decreases variants.len() - i,
    {
        if !variants[i].unit {
            proof {
                let c = choose|c: int| 0 <= c < variants@.len() && !(#[trigger] variants@[c]).unit && forall|j: int| 0 <= j < c ==> (#[trigger] variants@[j]).unit;
                if c > i {
                    assert(variants@[i as int].unit);
                }
            }
            return Err(DeriveFault::NonUnitVariant { ident: variants[i].ident.clone() });
        }
        criteria.push(variants[i].criteria.clone());
        i += 1;
    }
    proof {
        assert(first_non_unit(variants@) is None);
    }
    let n = variants.len();
    if n < 2 || n > 10 {
        return Err(DeriveFault::LevelCount { found: n });
    }
    let mut all_static = true;
    let mut none_static = true;
    let mut k: usize = 0;
    while k < variants.len()
        invariant
            k <= variants@.len(),
            all_static == forall|x: int| 0 <= x < k ==> (#[trigger] variants@[x]).criteria is Some,
            none_static == forall|x: int| 0 <= x < k ==> (#[trigger] variants@[x]).criteria is None,
        decreases variants.len() - k,
    {
        if variants[k].criteria.is_some() {
            none_static = false;
        } else {
            all_static = false;
        }
        k += 1;
    }
    if !all_static && !none_static {
        return Err(DeriveFault::MixedCriteria);
    }
    Ok((n as u8, criteria))
}

/// Checks a noul's pole descriptions: both or neither.
pub fn check_noul_poles(yes: bool, no: bool) -> (r: Result<(), DeriveFault>)
    ensures
        yes == no ==> r is Ok,
        yes != no ==> r == Err::<(), DeriveFault>(DeriveFault::OnePole),
{
    if yes != no {
        Err(DeriveFault::OnePole)
    } else {
        Ok(())
    }
}

/// The first field (in order) that `token` names under either spelling.
pub open spec fn first_field_named(fields: Seq<FieldKey>, token: Seq<char>) -> Option<int>
    decreases fields.len(),
{
    if fields.len() == 0 {
        None
    } else if token == fields[0].ident@ || (fields[0].outcome matches KeyOutcome::Key(k) && k@ == token) {
        Some(0)
    } else {
        match first_field_named(fields.drop_first(), token) {
            Some(i) => Some(i + 1),
            None => None,
        }
    }
}

/// Whether a reference token fails: it names a field serde never
/// serializes, or the serialized keys are known and do not include it.
pub open spec fn data_token_fails(fields: Seq<FieldKey>, token: Seq<char>) -> bool {
    ||| (first_field_named(fields, token) matches Some(i) && fields[i].outcome is NeverSerialized)
    ||| (!any_opaque(fields) && !emitted_keys(fields).contains(token))
}

proof fn lemma_first_field_in_range(fields: Seq<FieldKey>, token: Seq<char>)
    ensures
        first_field_named(fields, token) matches Some(i) ==> 0 <= i < fields.len(),
    decreases fields.len(),
{
    if fields.len() > 0 {
        lemma_first_field_in_range(fields.drop_first(), token);
    }
}

fn field_named(fields: &Vec<FieldKey>, token: &str) -> (r: Option<usize>)
    ensures
        r matches Some(i) ==> i < fields@.len() && first_field_named(fields@, token@) == Some(i as int),
        r is None ==> first_field_named(fields@, token@) is None,
{
    let mut i: usize = 0;
    assert(fields@.skip(0) =~= fields@);
    proof {
        lemma_first_field_in_range(fields@, token@);
    }
    while i < fields.len()
        invariant
            i <= fields@.len(),
            forall|j: int| 0 <= j < i ==> !(token@ == fields@[j].ident@ || (fields@[j].outcome matches KeyOutcome::Key(k) && k@ == token@)),
            first_field_named(fields@, token@) == (match first_field_named(fields@.skip(i as int), token@) {
                Some(x) => Some(x + i),
                None => None,
            }),
        decreases fields.len() - i,
    {
        assert(fields@.skip(i as int)[0] == fields@[i as int]);
        assert(fields@.skip(i as int).drop_first() =~= fields@.skip(i + 1));
        if fields[i].matches(token) {
            return Some(i);
        }
        i += 1;
    }
    assert(fields@.skip(i as int) =~= Seq::<FieldKey>::empty());
    None
}

fn strings_contain(items: &Vec<String>, key: &str) -> (b: bool)
    ensures
        b == items@.map_values(|s: String| s@).contains(key@),
{
    let ghost iv = items@.map_values(|s: String| s@);
    let mut i: usize = 0;
    while i < items.len()
        invariant
            i <= items@.len(),
            iv == items@.map_values(|s: String| s@),
            forall|j: int| 0 <= j < i ==> iv[j] != key@,
        decreases items.len() - i,
    {
        if str_equal(items[i].as_str(), key) {
            assert(iv[i as int] == key@);
            return true;
        }
        i += 1;
    }
    false
}

/// The key that the first field whose Rust name is `token` serializes as,
/// when it has one (a hint that the reference should use it).
pub open spec fn rename_hint(fields: Seq<FieldKey>, token: Seq<char>) -> Option<Seq<char>>
    decreases fields.len(),
{
    if fields.len() == 0 {
        None
    } else if fields[0].ident@ == token {
        match fields[0].outcome {
            KeyOutcome::Key(k) => Some(k@),
            _ => None,
        }
    } else {
        rename_hint(fields.drop_first(), token)
    }
}

/// The first reference token (in text order) that fails.
pub open spec fn first_failing_token(fields: Seq<FieldKey>, tokens: Seq<Seq<char>>) -> Option<Seq<char>>
    decreases tokens.len(),
{
    if tokens.len() == 0 {
        None
    } else if data_token_fails(fields, tokens[0]) {
        Some(tokens[0])
    } else {
        first_failing_token(fields, tokens.drop_first())
    }
}

/// Whether `token` names, under either spelling, a field serde never
/// serializes (the first field it names decides).
pub open spec fn names_skipped_field(fields: Seq<FieldKey>, token: Seq<char>) -> bool {
    first_field_named(fields, token) matches Some(i) && fields[i].outcome is NeverSerialized
}

fn renamed_field_key(fields: &Vec<FieldKey>, token: &str) -> (r: Option<String>)
    ensures
        r matches Some(k) ==> rename_hint(fields@, token@) == Some(k@),
        r is None ==> rename_hint(fields@, token@) is None,
{
    let mut i: usize = 0;
    assert(fields@.skip(0) =~= fields@);
    while i < fields.len()
        invariant
            i <= fields@.len(),
            rename_hint(fields@, token@) == rename_hint(fields@.skip(i as int), token@),
        decreases fields.len() - i,
    {
        assert(fields@.skip(i as int)[0] == fields@[i as int]);
        assert(fields@.skip(i as int).drop_first() =~= fields@.skip(i + 1));
        if str_equal(fields[i].ident.as_str(), token) {
            return match &fields[i].outcome {
                KeyOutcome::Key(k) => Some(k.clone()),
                _ => None,
            };
        }
        i += 1;
    }
    assert(fields@.skip(i as int) =~= Seq::<FieldKey>::empty());
    None
}

/// Checks the backtick references of a structured question contract
/// against its fields. The first token (in text order) that fails is
/// refused: one naming a field serde never serializes, else one that the
/// serialized keys (when statically known) do not include, reported with
/// those keys and the key a field of that Rust name serializes as.
pub fn check_instruction_refs(question: &str, fields: &Vec<FieldKey>) -> (r: Result<(), DeriveFault>)
    ensures
        match first_failing_token(fields@, backtick_tokens(question@)) {
            None => r is Ok,
            Some(t) => if names_skipped_field(fields@, t) {
                r matches Err(DeriveFault::SkippedFieldReference { token, field }) && token@ == t
                    && field@ == fields@[first_field_named(fields@, t)->0].ident@
            } else {
                r matches Err(DeriveFault::UnknownDataReference { token, available, renamed_as }) && token@ == t
                    && available@.map_values(|s: String| s@) == emitted_keys(fields@)
                    && match renamed_as {
                        Some(k) => rename_hint(fields@, t) == Some(k@),
                        None => rename_hint(fields@, t) is None,
                    }
            },
        },
{
    let serialized = serialized_keys(fields);
    let tokens = backtick_refs(question);
    let ghost toks = tokens@.map_values(|s: String| s@);
    let mut t: usize = 0;
    assert(toks.skip(0) =~= toks);
    while t < tokens.len()
        invariant
            t <= tokens@.len(),
            toks == tokens@.map_values(|s: String| s@),
            toks == backtick_tokens(question@),
            any_opaque(fields@) ==> serialized is None,
            !any_opaque(fields@) ==> (serialized matches Some(v) && v@.map_values(|s: String| s@) == emitted_keys(fields@)),
            first_failing_token(fields@, toks) == first_failing_token(fields@, toks.skip(t as int)),
        decreases tokens.len() - t,
    {
        let token = tokens[t].as_str();
        assert(token@ == toks[t as int]);
        assert(toks.skip(t as int)[0] == token@);
        assert(toks.skip(t as int).drop_first() =~= toks.skip(t + 1));
        let named = field_named(fields, token);
        if let Some(i) = named {
            let skipped = match &fields[i].outcome {
                KeyOutcome::NeverSerialized => true,
                _ => false,
            };
            if skipped {
                proof {
                    assert(first_field_named(fields@, token@) == Some(i as int));
                    assert(fields@[i as int].outcome is NeverSerialized);
                    assert(data_token_fails(fields@, toks[t as int]));
                }
                return Err(DeriveFault::SkippedFieldReference { token: tokens[t].clone(), field: fields[i].ident.clone() });
            }
        }
        if let Some(available) = &serialized {
            if !strings_contain(available, token) {
                proof {
                    assert(data_token_fails(fields@, toks[t as int]));
                }
                return Err(DeriveFault::UnknownDataReference {
                    token: tokens[t].clone(),
                    available: available.clone(),
                    renamed_as: renamed_field_key(fields, token),
                });
            }
        }
        t += 1;
    }
    assert(toks.skip(t as int) =~= Seq::<Seq<char>>::empty());
    Ok(())
}

proof fn lemma_no_failing_token(fields: Seq<FieldKey>, tokens: Seq<Seq<char>>)
    requires
        first_failing_token(fields, tokens) is None,
    ensures
        forall|j: int| 0 <= j < tokens.len() ==> !data_token_fails(fields, #[trigger] tokens[j]),
    decreases tokens.len(),
{
    if tokens.len() > 0 {
        lemma_no_failing_token(fields, tokens.drop_first());
        assert forall|j: int| 0 <= j < tokens.len() implies !data_token_fails(fields, #[trigger] tokens[j]) by {
            if j > 0 {
                assert(tokens[j] == tokens.drop_first()[j - 1]);
            }
        }
    }
}

/// The references of an accepted question contract are serialized keys,
/// never bare Rust field names: when the fields' keys are statically
/// known, every reference is a key serde emits, and no reference names a
/// field serde never serializes.
pub proof fn lemma_accepted_refs_are_serialized_keys(question: Seq<char>, fields: Seq<FieldKey>)
    requires
        first_failing_token(fields, backtick_tokens(question)) is None,
    ensures
        forall|j: int| 0 <= j < backtick_tokens(question).len() ==> !names_skipped_field(fields, #[trigger] backtick_tokens(question)[j]),
        !any_opaque(fields) ==> forall|j: int| 0 <= j < backtick_tokens(question).len() ==> emitted_keys(fields).contains(#[trigger] backtick_tokens(question)[j]),
{
    lemma_no_failing_token(fields, backtick_tokens(question));
}

} // verus!
