//! Attributes as the derives read them: the items of `#[serde(...)]` and
//! `#[jev(...)]` as plain values, the key serde gives each field, the
//! container's `rename_all` rule, and the string settings of a derive.
//!
//! An item's parse follows the attribute parser's rules: items are read in
//! order, and an item the derive does not consume whole (a value that is
//! not exactly one string literal, a list the derive does not open) stops
//! the parse of the list it stands in.

use vstd::prelude::*;

use crate::keyed::{lookup, KeyedMap};
use crate::naming::{field_key, field_outcome_of, renamed, rename_rule_named, FieldAttrs, FieldKey, KeyOutcome, KeyOutcomeView, RenameRule};
use crate::text::{owned, str_equal};

verus! {

/// The value of an attribute item written `name = value`.
#[derive(Clone, Debug, PartialEq, Eq)]
pub enum MetaValue {
    /// Exactly one string literal: its value.
    Str(String),
    /// A path such as a type name, as its tokens print.
    Path(String),
    /// Any other expression; the value of the string literal it starts
    /// with, if it starts with one.
    Other(Option<String>),
}

/// An item inside the parentheses of an attribute item. Its name is the
/// item's path when that is a single identifier.
#[derive(Clone, Debug, PartialEq, Eq)]
pub enum NestedMeta {
    /// `name`
    Word(Option<String>),
    /// `name = value`
    Value(Option<String>, MetaValue),
    /// `name(...)`
    List(Option<String>),
}

/// An item inside an attribute's parentheses.
#[derive(Clone, Debug, PartialEq, Eq)]
pub enum Meta {
    /// `name`
    Word(Option<String>),
    /// `name = value`
    Value(Option<String>, MetaValue),
    /// `name(...)`: the nested items that parse, in order, and whether the
    /// whole parenthesized text did.
    List(Option<String>, Vec<NestedMeta>, bool),
}

/// One outer attribute: its path when a single identifier, the items in
/// its parentheses that parse, in order, and whether the whole
/// parenthesized text did (false as well when it has no parentheses).
#[derive(Clone, Debug, PartialEq, Eq)]
pub struct Attr {
    pub path: Option<String>,
    pub items: Vec<Meta>,
    pub complete: bool,
}

/// Why the settings of a derive cannot be read.
#[derive(Clone, Debug, PartialEq, Eq)]
pub enum AttrFault {
    /// The attribute's parentheses do not hold a list of items.
    Syntax,
    /// An item's name is a path of more than one segment.
    CompoundKey,
    /// An item without `= value`.
    MissingValue { key: String },
    /// A value that is neither a string literal nor a path.
    BadValue { key: String },
    /// A setting the derive requires is absent.
    Missing { derive: String, key: String },
}

/// An [`AttrFault`] with its strings read as character sequences.
pub enum AttrFaultView {
    Syntax,
    CompoundKey,
    MissingValue(Seq<char>),
    BadValue(Seq<char>),
    Missing(Seq<char>, Seq<char>),
}

impl View for AttrFault {
    type V = AttrFaultView;

    open spec fn view(&self) -> AttrFaultView {
        match self {
            AttrFault::Syntax => AttrFaultView::Syntax,
            AttrFault::CompoundKey => AttrFaultView::CompoundKey,
            AttrFault::MissingValue { key } => AttrFaultView::MissingValue(key@),
            AttrFault::BadValue { key } => AttrFaultView::BadValue(key@),
            AttrFault::Missing { derive, key } => AttrFaultView::Missing(derive@, key@),
        }
    }
}

/// An optional string read as an optional character sequence.
pub open spec fn opt_view(o: Option<String>) -> Option<Seq<char>> {
    match o {
        Some(s) => Some(s@),
        None => None,
    }
}

/// Whether an optional name is `s`.
pub open spec fn named(n: Option<String>, s: Seq<char>) -> bool {
    n matches Some(x) && x@ == s
}

fn is_named(n: &Option<String>, s: &str) -> (b: bool)
    ensures
        b == named(*n, s@),
{
    match n {
        Some(x) => str_equal(x.as_str(), s),
        None => false,
    }
}

/// The name of an item.
pub open spec fn meta_name(m: Meta) -> Option<String> {
    match m {
        Meta::Word(n) => n,
        Meta::Value(n, _) => n,
        Meta::List(n, _, _) => n,
    }
}

/// Whether an attribute is a `serde` one.
pub open spec fn is_serde(a: Attr) -> bool {
    named(a.path, "serde"@)
}

// ---------------------------------------------------------------- fields

/// Whether the parse of a field's serde attribute gets past an item: a
/// value must be exactly a string literal, and of the lists only
/// `rename(...)` is opened.
pub open spec fn field_item_parses(m: Meta) -> bool {
    match m {
        Meta::Word(_) => true,
        Meta::Value(_, v) => v is Str,
        Meta::List(n, _, _) => named(n, "rename"@),
    }
}

/// Whether a field's serde attribute parses as the derive reads it.
pub open spec fn field_attr_parses(a: Attr) -> bool {
    a.complete && forall|j: int| 0 <= j < a.items@.len() ==> field_item_parses(#[trigger] a.items@[j])
}

/// Whether a nested item stops the parse of its list: a nested list, or a
/// value that is not exactly a string literal.
pub open spec fn nested_fails(m: NestedMeta) -> bool {
    match m {
        NestedMeta::Word(_) => false,
        NestedMeta::Value(_, v) => !(v is Str),
        NestedMeta::List(_) => true,
    }
}

/// The last `serialize = ".."` of a nested list.
pub open spec fn serialize_side(nested: Seq<NestedMeta>) -> Option<Seq<char>>
    decreases nested.len(),
{
    if nested.len() == 0 {
        None
    } else {
        match nested.last() {
            NestedMeta::Value(n, MetaValue::Str(t)) => if named(n, "serialize"@) {
                Some(t@)
            } else {
                serialize_side(nested.drop_last())
            },
            _ => serialize_side(nested.drop_last()),
        }
    }
}

/// The key a `rename` item gives, when it can be read: `rename = ".."`,
/// or the serialize side of `rename(..)` when its whole list parses.
pub open spec fn rename_text(m: Meta) -> Option<Seq<char>> {
    match m {
        Meta::Value(_, MetaValue::Str(t)) => Some(t@),
        Meta::List(_, nested, complete) => if complete && forall|k: int| 0 <= k < nested@.len() ==> !nested_fails(#[trigger] nested@[k]) {
            serialize_side(nested@)
        } else {
            None
        },
        _ => None,
    }
}

/// `skip` or `skip_serializing`.
pub open spec fn is_skip_item(m: Meta) -> bool {
    named(meta_name(m), "skip"@) || named(meta_name(m), "skip_serializing"@)
}

/// `flatten`.
pub open spec fn is_flatten_item(m: Meta) -> bool {
    named(meta_name(m), "flatten"@)
}

/// A `rename` whose key cannot be read.
pub open spec fn is_unreadable_rename(m: Meta) -> bool {
    named(meta_name(m), "rename"@) && rename_text(m) is None
}

/// The key of the last readable `rename` among `items`.
pub open spec fn last_rename_in(items: Seq<Meta>) -> Option<Seq<char>>
    decreases items.len(),
{
    if items.len() == 0 {
        None
    } else if named(meta_name(items.last()), "rename"@) && rename_text(items.last()) is Some {
        rename_text(items.last())
    } else {
        last_rename_in(items.drop_last())
    }
}

/// A serde attribute that does not parse.
pub open spec fn attr_malformed(a: Attr) -> bool {
    is_serde(a) && !field_attr_parses(a)
}

/// The kinds of field items that decide a key's outcome.
pub enum ItemKind {
    /// `skip` or `skip_serializing`.
    Skip,
    /// `flatten`.
    Flatten,
    /// A `rename` whose key cannot be read.
    UnreadableRename,
}

/// A serde attribute that parses and holds an item of `kind`.
pub open spec fn attr_holds(a: Attr, kind: ItemKind) -> bool {
    is_serde(a) && field_attr_parses(a) && exists|j: int| 0 <= j < a.items@.len() && #[trigger] item_is(a.items@[j], kind)
}

/// Whether an item is of `kind`.
pub open spec fn item_is(m: Meta, kind: ItemKind) -> bool {
    match kind {
        ItemKind::Skip => is_skip_item(m),
        ItemKind::Flatten => is_flatten_item(m),
        ItemKind::UnreadableRename => is_unreadable_rename(m),
    }
}

/// The key of the last readable `rename` among the serde attributes that
/// parse.
pub open spec fn last_rename(attrs: Seq<Attr>) -> Option<Seq<char>>
    decreases attrs.len(),
{
    if attrs.len() == 0 {
        None
    } else if is_serde(attrs.last()) && field_attr_parses(attrs.last()) && last_rename_in(attrs.last().items@) is Some {
        last_rename_in(attrs.last().items@)
    } else {
        last_rename(attrs.drop_last())
    }
}

/// Whether `fa` is what a field's attributes say: some serde attribute
/// does not parse; of those that do, one skips, one flattens, one renames
/// unreadably; and the last readable rename.
pub open spec fn field_attrs_of(fa: FieldAttrs, attrs: Seq<Attr>) -> bool {
    &&& fa.malformed == exists|i: int| 0 <= i < attrs.len() && attr_malformed(#[trigger] attrs[i])
    &&& fa.skipped == exists|i: int| 0 <= i < attrs.len() && #[trigger] attr_holds(attrs[i], ItemKind::Skip)
    &&& fa.flattened == exists|i: int| 0 <= i < attrs.len() && #[trigger] attr_holds(attrs[i], ItemKind::Flatten)
    &&& fa.rename_unreadable == exists|i: int| 0 <= i < attrs.len() && #[trigger] attr_holds(attrs[i], ItemKind::UnreadableRename)
    &&& opt_view(fa.rename) == last_rename(attrs)
}

fn nested_all_parse(nested: &Vec<NestedMeta>) -> (b: bool)
    ensures
        b == forall|k: int| 0 <= k < nested@.len() ==> !nested_fails(#[trigger] nested@[k]),
{
    let mut k: usize = 0;
    while k < nested.len()
        invariant
            k <= nested@.len(),
            forall|x: int| 0 <= x < k ==> !nested_fails(#[trigger] nested@[x]),
        decreases nested.len() - k,
    {
        let fails = match &nested[k] {
            NestedMeta::Word(_) => false,
            NestedMeta::Value(_, v) => match v {
                MetaValue::Str(_) => false,
                _ => true,
            },
            NestedMeta::List(_) => true,
        };
        if fails {
            return false;
        }
        k += 1;
    }
    true
}

fn serialize_side_of(nested: &Vec<NestedMeta>) -> (r: Option<String>)
    ensures
        opt_view(r) == serialize_side(nested@),
{
    let mut found: Option<String> = None;
    let mut k: usize = 0;
    while k < nested.len()
        invariant
            k <= nested@.len(),
            opt_view(found) == serialize_side(nested@.take(k as int)),
        decreases nested.len() - k,
    {
        assert(nested@.take(k + 1).drop_last() =~= nested@.take(k as int));
        assert(nested@.take(k + 1).last() == nested@[k as int]);
        if let NestedMeta::Value(n, MetaValue::Str(t)) = &nested[k] {
            if is_named(n, "serialize") {
                found = Some(t.clone());
            }
        }
        k += 1;
    }
    assert(nested@.take(nested.len() as int) =~= nested@);
    found
}

fn rename_text_of(m: &Meta) -> (r: Option<String>)
    ensures
        opt_view(r) == rename_text(*m),
{
    match m {
        Meta::Value(_, MetaValue::Str(t)) => Some(t.clone()),
        Meta::List(_, nested, complete) => {
            if *complete && nested_all_parse(nested) {
                serialize_side_of(nested)
            } else {
                None
            }
        },
        _ => None,
    }
}

fn meta_name_of(m: &Meta) -> (r: &Option<String>)
    ensures
        *r == meta_name(*m),
{
    match m {
        Meta::Word(n) => n,
        Meta::Value(n, _) => n,
        Meta::List(n, _, _) => n,
    }
}

fn field_attr_ok(a: &Attr) -> (b: bool)
    ensures
        b == field_attr_parses(*a),
{
    if !a.complete {
        return false;
    }
    let mut j: usize = 0;
    while j < a.items.len()
        invariant
            j <= a.items@.len(),
            forall|x: int| 0 <= x < j ==> field_item_parses(#[trigger] a.items@[x]),
        decreases a.items.len() - j,
    {
        let ok = match &a.items[j] {
            Meta::Word(_) => true,
            Meta::Value(_, v) => match v {
                MetaValue::Str(_) => true,
                _ => false,
            },
            Meta::List(n, _, _) => is_named(n, "rename"),
        };
        if !ok {
            return false;
        }
        j += 1;
    }
    true
}

/// Scans the items of a serde attribute that parses.
fn scan_field_items(items: &Vec<Meta>) -> (r: (bool, bool, bool, Option<String>))
    ensures
        r.0 == exists|j: int| 0 <= j < items@.len() && #[trigger] item_is(items@[j], ItemKind::Skip),
        r.1 == exists|j: int| 0 <= j < items@.len() && #[trigger] item_is(items@[j], ItemKind::Flatten),
        r.2 == exists|j: int| 0 <= j < items@.len() && #[trigger] item_is(items@[j], ItemKind::UnreadableRename),
        opt_view(r.3) == last_rename_in(items@),
{
    let mut skip = false;
    let mut flatten = false;
    let mut unreadable = false;
    let mut rename: Option<String> = None;
    let mut j: usize = 0;
    while j < items.len()
        invariant
            j <= items@.len(),
            skip == exists|x: int| 0 <= x < j && #[trigger] item_is(items@[x], ItemKind::Skip),
            flatten == exists|x: int| 0 <= x < j && #[trigger] item_is(items@[x], ItemKind::Flatten),
            unreadable == exists|x: int| 0 <= x < j && #[trigger] item_is(items@[x], ItemKind::UnreadableRename),
            opt_view(rename) == last_rename_in(items@.take(j as int)),
        decreases items.len() - j,
    {
        let m = &items[j];
        let name = meta_name_of(m);
        assert(items@.take(j + 1).drop_last() =~= items@.take(j as int));
        assert(items@.take(j + 1).last() == items@[j as int]);
        if is_named(name, "skip") || is_named(name, "skip_serializing") {
            skip = true;
        }
        if is_named(name, "flatten") {
            flatten = true;
        }
        if is_named(name, "rename") {
            match rename_text_of(m) {
                Some(t) => {
                    rename = Some(t);
                },
                None => {
                    unreadable = true;
                },
            }
        }
        proof {
            assert(item_is(items@[j as int], ItemKind::Skip) == is_skip_item(items@[j as int]));
            assert(item_is(items@[j as int], ItemKind::Flatten) == is_flatten_item(items@[j as int]));
            assert(item_is(items@[j as int], ItemKind::UnreadableRename) == is_unreadable_rename(items@[j as int]));
        }
        j += 1;
    }
    assert(items@.take(items.len() as int) =~= items@);
    (skip, flatten, unreadable, rename)
}

/// Reads a field's serde attributes: whether one does not parse, whether
/// one skips the field, flattens it or renames it unreadably, and the key
/// of the last readable rename. Attributes other than `serde` are ignored.
pub fn field_serde_attrs(attrs: &Vec<Attr>) -> (r: FieldAttrs)
    ensures
        field_attrs_of(r, attrs@),
{
    let mut fa = FieldAttrs { rename: None, rename_unreadable: false, skipped: false, flattened: false, malformed: false };
    let mut i: usize = 0;
    while i < attrs.len()
        invariant
            i <= attrs@.len(),
            fa.malformed == exists|k: int| 0 <= k < i && attr_malformed(#[trigger] attrs@[k]),
            fa.skipped == exists|k: int| 0 <= k < i && #[trigger] attr_holds(attrs@[k], ItemKind::Skip),
            fa.flattened == exists|k: int| 0 <= k < i && #[trigger] attr_holds(attrs@[k], ItemKind::Flatten),
            fa.rename_unreadable == exists|k: int| 0 <= k < i && #[trigger] attr_holds(attrs@[k], ItemKind::UnreadableRename),
            opt_view(fa.rename) == last_rename(attrs@.take(i as int)),
        decreases attrs.len() - i,
    {
        let a = &attrs[i];
        assert(attrs@.take(i + 1).drop_last() =~= attrs@.take(i as int));
        assert(attrs@.take(i + 1).last() == attrs@[i as int]);
        if is_named(&a.path, "serde") {
            if !field_attr_ok(a) {
                fa.malformed = true;
                assert(attr_malformed(attrs@[i as int]));
            } else {
                let (s, f, u, rn) = scan_field_items(&a.items);
                if s {
                    fa.skipped = true;
                    assert(attr_holds(attrs@[i as int], ItemKind::Skip));
                }
                if f {
                    fa.flattened = true;
                    assert(attr_holds(attrs@[i as int], ItemKind::Flatten));
                }
                if u {
                    fa.rename_unreadable = true;
                    assert(attr_holds(attrs@[i as int], ItemKind::UnreadableRename));
                }
                if let Some(t) = rn {
                    fa.rename = Some(t);
                }
                assert(!attr_malformed(attrs@[i as int]));
                assert(s == attr_holds(attrs@[i as int], ItemKind::Skip));
                assert(f == attr_holds(attrs@[i as int], ItemKind::Flatten));
                assert(u == attr_holds(attrs@[i as int], ItemKind::UnreadableRename));
            }
        } else {
            assert(!attr_malformed(attrs@[i as int]));
            assert(!attr_holds(attrs@[i as int], ItemKind::Skip));
            assert(!attr_holds(attrs@[i as int], ItemKind::Flatten));
            assert(!attr_holds(attrs@[i as int], ItemKind::UnreadableRename));
        }
        i += 1;
    }
    assert(attrs@.take(attrs.len() as int) =~= attrs@);
    fa
}

// ------------------------------------------------------------- container

/// The rule after the items of a `rename_all(...)` list, starting from
/// `rule`: each `serialize = ".."` sets it, and the first item that stops
/// the list's parse ends the reading (a value that starts with a string
/// literal under `serialize` still sets the rule before it stops).
pub open spec fn nested_rule(nested: Seq<NestedMeta>, rule: Option<RenameRule>) -> Option<RenameRule>
    decreases nested.len(),
{
    if nested.len() == 0 {
        rule
    } else {
        let m = nested[0];
        let next = match m {
            NestedMeta::Value(n, MetaValue::Str(t)) => if named(n, "serialize"@) {
                rename_rule_named(t@)
            } else {
                rule
            },
            NestedMeta::Value(n, MetaValue::Other(Some(t))) => if named(n, "serialize"@) {
                rename_rule_named(t@)
            } else {
                rule
            },
            _ => rule,
        };
        if nested_fails(m) {
            next
        } else {
            nested_rule(nested.drop_first(), next)
        }
    }
}

/// The rule after the items of a container's serde attribute, starting
/// from `rule`, or `None` when the attribute does not parse: a value must
/// be exactly a string literal (`rename_all = ".."` sets the rule), and
/// of the lists only `rename_all(...)` is opened.
pub open spec fn container_items(items: Seq<Meta>, rule: Option<RenameRule>) -> Option<Option<RenameRule>>
    decreases items.len(),
{
    if items.len() == 0 {
        Some(rule)
    } else {
        match items[0] {
            Meta::Word(_) => container_items(items.drop_first(), rule),
            Meta::Value(n, v) => match v {
                MetaValue::Str(t) => container_items(items.drop_first(), if named(n, "rename_all"@) {
                    rename_rule_named(t@)
                } else {
                    rule
                }),
                _ => None,
            },
            Meta::List(n, nested, _) => if named(n, "rename_all"@) {
                container_items(items.drop_first(), nested_rule(nested@, rule))
            } else {
                None
            },
        }
    }
}

/// The rule after a container's attributes, starting from `rule`, or
/// `None` when one of its serde attributes does not parse.
pub open spec fn container_rule(attrs: Seq<Attr>, rule: Option<RenameRule>) -> Option<Option<RenameRule>>
    decreases attrs.len(),
{
    if attrs.len() == 0 {
        Some(rule)
    } else if !is_serde(attrs[0]) {
        container_rule(attrs.drop_first(), rule)
    } else if !attrs[0].complete {
        None
    } else {
        match container_items(attrs[0].items@, rule) {
            None => None,
            Some(r) => container_rule(attrs.drop_first(), r),
        }
    }
}

fn nested_rule_of(nested: &Vec<NestedMeta>, rule: Option<RenameRule>) -> (r: Option<RenameRule>)
    ensures
        r == nested_rule(nested@, rule),
{
    let ghost target = nested_rule(nested@, rule);
    let mut current = rule;
    let mut k: usize = 0;
    assert(nested@.skip(0) =~= nested@);
    while k < nested.len()
        invariant
            k <= nested@.len(),
            target == nested_rule(nested@, rule),
            nested_rule(nested@.skip(k as int), current) == target,
        decreases nested.len() - k,
    {
        let m = &nested[k];
        assert(nested@.skip(k as int)[0] == nested@[k as int]);
        assert(nested@.skip(k as int).drop_first() =~= nested@.skip(k + 1));
        let next = match m {
            NestedMeta::Value(n, MetaValue::Str(t)) => if is_named(n, "serialize") {
                RenameRule::parse(t.as_str())
            } else {
                current
            },
            NestedMeta::Value(n, MetaValue::Other(Some(t))) => if is_named(n, "serialize") {
                RenameRule::parse(t.as_str())
            } else {
                current
            },
            _ => current,
        };
        let fails = match m {
            NestedMeta::Word(_) => false,
            NestedMeta::Value(_, MetaValue::Str(_)) => false,
            _ => true,
        };
        proof {
            let sm = nested@[k as int];
            assert(*m == sm);
            assert(nested_rule(nested@.skip(k as int), current) == (if nested_fails(sm) {
                next
            } else {
                nested_rule(nested@.skip(k + 1), next)
            }));
        }
        if fails {
            return next;
        }
        current = next;
        k += 1;
    }
    assert(nested@.skip(k as int) =~= Seq::<NestedMeta>::empty());
    current
}

/// The container's `rename_all` rule, as serde's attributes set it: the
/// last `rename_all = ".."` or `rename_all(serialize = "..")` (an unknown
/// rule name leaves none), and none at all when one of its serde
/// attributes does not parse.
pub fn container_rename_all(attrs: &Vec<Attr>) -> (r: Option<RenameRule>)
    ensures
        r == (match container_rule(attrs@, None) {
            Some(rule) => rule,
            None => None,
        }),
{
    let ghost target = container_rule(attrs@, None);
    let mut rule: Option<RenameRule> = None;
    let mut i: usize = 0;
    assert(attrs@.skip(0) =~= attrs@);
    while i < attrs.len()
        invariant
            i <= attrs@.len(),
            target == container_rule(attrs@, None),
            container_rule(attrs@.skip(i as int), rule) == target,
        decreases attrs.len() - i,
    {
        let a = &attrs[i];
        assert(attrs@.skip(i as int)[0] == attrs@[i as int]);
        assert(attrs@.skip(i as int).drop_first() =~= attrs@.skip(i + 1));
        if is_named(&a.path, "serde") {
            assert(is_serde(attrs@.skip(i as int)[0]));
            if !a.complete {
                assert(container_rule(attrs@.skip(i as int), rule) == None::<Option<RenameRule>>);
                return None;
            }
            let ghost items = a.items@;
            let ghost start = rule;
            assert(container_rule(attrs@.skip(i as int), start) == match container_items(items, start) {
                None => None,
                Some(r) => container_rule(attrs@.skip(i + 1), r),
            });
            let mut j: usize = 0;
            assert(items.skip(0) =~= items);
            while j < a.items.len()
                invariant
                    j <= items.len(),
                    items == a.items@,
                    i < attrs@.len(),
                    container_items(items.skip(j as int), rule) == container_items(items, start),
                    container_rule(attrs@.skip(i as int), start) == target,
                    target == container_rule(attrs@, None),
                    container_rule(attrs@.skip(i as int), start) == match container_items(items, start) {
                        None => None,
                        Some(r) => container_rule(attrs@.skip(i + 1), r),
                    },
                decreases a.items.len() - j,
            {
                assert(items.skip(j as int)[0] == items[j as int]);
                assert(items.skip(j as int).drop_first() =~= items.skip(j + 1));
                match &a.items[j] {
                    Meta::Word(_) => {},
                    Meta::Value(n, v) => match v {
                        MetaValue::Str(t) => {
                            if is_named(n, "rename_all") {
                                rule = RenameRule::parse(t.as_str());
                            }
                        },
                        _ => {
                            return None;
                        },
                    },
                    Meta::List(n, nested, _) => {
                        if is_named(n, "rename_all") {
                            rule = nested_rule_of(nested, rule);
                        } else {
                            return None;
                        }
                    },
                }
                j += 1;
            }
            assert(items.skip(j as int) =~= Seq::<Meta>::empty());
        }
        i += 1;
    }
    assert(attrs@.skip(i as int) =~= Seq::<Attr>::empty());
    rule
}

// ---------------------------------------------------------------- struct

/// One field of a struct as the derive reads it: its name (absent for a
/// tuple field) and its attributes.
#[derive(Clone, Debug)]
pub struct FieldInfo {
    pub ident: Option<String>,
    pub attrs: Vec<Attr>,
}

/// The named fields, in order, with their attributes.
pub open spec fn named_fields(fields: Seq<FieldInfo>) -> Seq<(Seq<char>, Seq<Attr>)>
    decreases fields.len(),
{
    if fields.len() == 0 {
        Seq::empty()
    } else {
        let prefix = named_fields(fields.drop_last());
        match fields.last().ident {
            Some(i) => prefix.push((i@, fields.last().attrs@)),
            None => prefix,
        }
    }
}

/// The container's rule as [`container_rename_all`] reads it.
pub open spec fn container_rule_of(attrs: Seq<Attr>) -> Option<RenameRule> {
    match container_rule(attrs, None) {
        Some(rule) => rule,
        None => None,
    }
}

/// What serde does with the key of a field named `ident` with attributes
/// `attrs` under the container's `rule`: a serde attribute that does not
/// parse leaves the key unknowable; `skip` wins over everything else;
/// `flatten` or an unreadable rename leave the key unknowable; the last
/// readable rename wins over the rule.
pub open spec fn serde_key_outcome(ident: Seq<char>, attrs: Seq<Attr>, rule: Option<RenameRule>) -> KeyOutcomeView {
    if exists|i: int| 0 <= i < attrs.len() && attr_malformed(#[trigger] attrs[i]) {
        KeyOutcomeView::Opaque
    } else if exists|i: int| 0 <= i < attrs.len() && #[trigger] attr_holds(attrs[i], ItemKind::Skip) {
        KeyOutcomeView::NeverSerialized
    } else if (exists|i: int| 0 <= i < attrs.len() && #[trigger] attr_holds(attrs[i], ItemKind::Flatten))
        || (exists|i: int| 0 <= i < attrs.len() && #[trigger] attr_holds(attrs[i], ItemKind::UnreadableRename)) {
        KeyOutcomeView::Opaque
    } else {
        match last_rename(attrs) {
            Some(k) => KeyOutcomeView::Key(k),
            None => match rule {
                Some(r) => KeyOutcomeView::Key(renamed(r, ident)),
                None => KeyOutcomeView::Key(ident),
            },
        }
    }
}

/// Resolves every named field's key from its serde attributes and the
/// container's `rename_all` rule, in field order; tuple fields are left
/// out.
pub fn resolve_fields(container: &Vec<Attr>, fields: &Vec<FieldInfo>) -> (r: Vec<FieldKey>)
    ensures
        r@.len() == named_fields(fields@).len(),
        forall|i: int| 0 <= i < r@.len() ==> (#[trigger] r@[i]).ident@ == named_fields(fields@)[i].0
            && r@[i].outcome@ == serde_key_outcome(named_fields(fields@)[i].0, named_fields(fields@)[i].1, container_rule_of(container@)),
{
    let rule = container_rename_all(container);
    let mut out: Vec<FieldKey> = Vec::new();
    let mut i: usize = 0;
    while i < fields.len()
        invariant
            i <= fields@.len(),
            rule == container_rule_of(container@),
            out@.len() == named_fields(fields@.take(i as int)).len(),
            forall|x: int| 0 <= x < out@.len() ==> (#[trigger] out@[x]).ident@ == named_fields(fields@.take(i as int))[x].0
                && out@[x].outcome@ == serde_key_outcome(named_fields(fields@.take(i as int))[x].0, named_fields(fields@.take(i as int))[x].1, rule),
        decreases fields.len() - i,
    {
        let f = &fields[i];
        assert(fields@.take(i + 1).drop_last() =~= fields@.take(i as int));
        assert(fields@.take(i + 1).last() == fields@[i as int]);
        if let Some(ident) = &f.ident {
            let fa = field_serde_attrs(&f.attrs);
            let key = field_key(ident.clone(), &fa, rule);
            proof {
                lemma_key_outcome(ident@, fa, f.attrs@, rule, key.outcome);
            }
            out.push(key);
        }
        i += 1;
    }
    assert(fields@.take(fields.len() as int) =~= fields@);
    out
}

proof fn lemma_key_outcome(ident: Seq<char>, fa: FieldAttrs, attrs: Seq<Attr>, rule: Option<RenameRule>, o: KeyOutcome)
    requires
        field_attrs_of(fa, attrs),
        fa.malformed ==> o is Opaque,
        !fa.malformed && fa.skipped ==> o is NeverSerialized,
        !fa.malformed && !fa.skipped && (fa.flattened || fa.rename_unreadable) ==> o is Opaque,
        field_outcome_of(ident, fa, rule) matches Some(k) ==> (o matches KeyOutcome::Key(key) && key@ == k),
    ensures
        o@ == serde_key_outcome(ident, attrs, rule),
{
}

// ------------------------------------------------------------ jev settings

/// Whether an attribute is a `jev` one.
pub open spec fn is_jev(a: Attr) -> bool {
    named(a.path, "jev"@)
}

/// What is wrong with one item of a `jev` attribute: its name is not a
/// single identifier, it has no `= value`, or its value is neither a
/// string literal nor a path.
pub open spec fn jev_item_fault(m: Meta) -> Option<AttrFaultView> {
    match m {
        Meta::Word(None) => Some(AttrFaultView::CompoundKey),
        Meta::Value(None, _) => Some(AttrFaultView::CompoundKey),
        Meta::List(None, _, _) => Some(AttrFaultView::CompoundKey),
        Meta::Word(Some(k)) => Some(AttrFaultView::MissingValue(k@)),
        Meta::List(Some(k), _, _) => Some(AttrFaultView::MissingValue(k@)),
        Meta::Value(Some(k), v) => match v {
            MetaValue::Other(_) => Some(AttrFaultView::BadValue(k@)),
            _ => None,
        },
    }
}

/// The setting an item that has no fault makes: its name and the string
/// literal's value or the path as written.
pub open spec fn jev_item_setting(m: Meta) -> (Seq<char>, Seq<char>) {
    match m {
        Meta::Value(Some(k), MetaValue::Str(t)) => (k@, t@),
        Meta::Value(Some(k), MetaValue::Path(t)) => (k@, t@),
        _ => (Seq::empty(), Seq::empty()),
    }
}

/// The first item fault, items in order.
pub open spec fn first_item_fault(items: Seq<Meta>) -> Option<AttrFaultView>
    decreases items.len(),
{
    if items.len() == 0 {
        None
    } else if jev_item_fault(items[0]) is Some {
        jev_item_fault(items[0])
    } else {
        first_item_fault(items.drop_first())
    }
}

/// The first fault of the `jev` attributes, in order: an item's own, else
/// a list that does not parse whole.
pub open spec fn jev_fault(attrs: Seq<Attr>) -> Option<AttrFaultView>
    decreases attrs.len(),
{
    if attrs.len() == 0 {
        None
    } else if !is_jev(attrs[0]) {
        jev_fault(attrs.drop_first())
    } else if first_item_fault(attrs[0].items@) is Some {
        first_item_fault(attrs[0].items@)
    } else if !attrs[0].complete {
        Some(AttrFaultView::Syntax)
    } else {
        jev_fault(attrs.drop_first())
    }
}

/// The settings of some items, in order.
pub open spec fn item_settings(items: Seq<Meta>) -> Seq<(Seq<char>, Seq<char>)>
    decreases items.len(),
{
    if items.len() == 0 {
        Seq::empty()
    } else {
        item_settings(items.drop_last()).push(jev_item_setting(items.last()))
    }
}

/// The settings of the `jev` attributes, in order.
pub open spec fn jev_settings(attrs: Seq<Attr>) -> Seq<(Seq<char>, Seq<char>)>
    decreases attrs.len(),
{
    if attrs.len() == 0 {
        Seq::empty()
    } else if is_jev(attrs.last()) {
        jev_settings(attrs.drop_last()) + item_settings(attrs.last().items@)
    } else {
        jev_settings(attrs.drop_last())
    }
}

/// The value of the last setting named `key`.
pub open spec fn last_setting(settings: Seq<(Seq<char>, Seq<char>)>, key: Seq<char>) -> Option<Seq<char>>
    decreases settings.len(),
{
    if settings.len() == 0 {
        None
    } else if settings.last().0 == key {
        Some(settings.last().1)
    } else {
        last_setting(settings.drop_last(), key)
    }
}

/// Reads every `#[jev(key = value)]` attribute into settings by key (a
/// later setting of a key wins). Values are string literals or paths
/// such as type names. The first fault, in order, is reported.
pub fn jev_string_attrs(attrs: &Vec<Attr>) -> (r: Result<KeyedMap<String>, AttrFault>)
    ensures
        match jev_fault(attrs@) {
            Some(f) => r matches Err(e) && e@ == f,
            None => r matches Ok(m) && forall|k: Seq<char>| #[trigger] opt_view(lookup(m@, k)) == last_setting(jev_settings(attrs@), k),
        },
{
    let mut settings: KeyedMap<String> = KeyedMap::new();
    let mut i: usize = 0;
    assert(attrs@.skip(0) =~= attrs@);
    while i < attrs.len()
        invariant
            i <= attrs@.len(),
            jev_fault(attrs@) == jev_fault(attrs@.skip(i as int)),
            forall|k: Seq<char>| #[trigger] opt_view(lookup(settings@, k)) == last_setting(jev_settings(attrs@.take(i as int)), k),
        decreases attrs.len() - i,
    {
        let a = &attrs[i];
        assert(attrs@.skip(i as int)[0] == attrs@[i as int]);
        assert(attrs@.skip(i as int).drop_first() =~= attrs@.skip(i + 1));
        assert(attrs@.take(i + 1).drop_last() =~= attrs@.take(i as int));
        assert(attrs@.take(i + 1).last() == attrs@[i as int]);
        if is_named(&a.path, "jev") {
            let ghost items = a.items@;
            let ghost base = jev_settings(attrs@.take(i as int));
            let mut j: usize = 0;
            assert(items.skip(0) =~= items);
            assert(base + item_settings(items.take(0)) =~= base);
            while j < a.items.len()
                invariant
                    j <= items.len(),
                    i < attrs@.len(),
                    items == a.items@,
                    *a == attrs@[i as int],
                    is_jev(attrs@[i as int]),
                    attrs@.skip(i as int)[0] == attrs@[i as int],
                    jev_fault(attrs@) == jev_fault(attrs@.skip(i as int)),
                    first_item_fault(items) == first_item_fault(items.skip(j as int)),
                    forall|k: Seq<char>| #[trigger] opt_view(lookup(settings@, k)) == last_setting(base + item_settings(items.take(j as int)), k),
                decreases a.items.len() - j,
            {
                assert(items.skip(j as int)[0] == items[j as int]);
                assert(items.skip(j as int).drop_first() =~= items.skip(j + 1));
                assert(items.take(j + 1).drop_last() =~= items.take(j as int));
                assert(items.take(j + 1).last() == items[j as int]);
                let (key, value) = match &a.items[j] {
                    Meta::Word(None) | Meta::Value(None, _) | Meta::List(None, _, _) => {
                        return Err(AttrFault::CompoundKey);
                    },
                    Meta::Word(Some(k)) | Meta::List(Some(k), _, _) => {
                        return Err(AttrFault::MissingValue { key: k.clone() });
                    },
                    Meta::Value(Some(k), v) => match v {
                        MetaValue::Str(t) => (k.clone(), t.clone()),
                        MetaValue::Path(t) => (k.clone(), t.clone()),
                        MetaValue::Other(_) => {
                            return Err(AttrFault::BadValue { key: k.clone() });
                        },
                    },
                };
                let ghost before = base + item_settings(items.take(j as int));
                proof {
                    assert(jev_item_setting(items[j as int]) == (key@, value@));
                    assert(base + item_settings(items.take(j + 1)) =~= before.push((key@, value@)));
                }
                let ghost old_map = settings@;
                let ghost new_key = key@;
                let ghost new_value = value@;
                settings.insert(key, value);
                proof {
                    assert forall|k: Seq<char>| #[trigger] opt_view(lookup(settings@, k)) == last_setting(base + item_settings(items.take(j + 1)), k) by {
                        assert(opt_view(lookup(old_map, k)) == last_setting(before, k));
                        assert(before.push((new_key, new_value)).drop_last() =~= before);
                        if k != new_key {
                            assert(lookup(settings@, k) == lookup(old_map, k));
                        }
                    }
                }
                j += 1;
            }
            assert(items.take(j as int) =~= items);
            assert(items.skip(j as int) =~= Seq::<Meta>::empty());
            if !a.complete {
                return Err(AttrFault::Syntax);
            }
        }
        i += 1;
    }
    assert(attrs@.take(i as int) =~= attrs@);
    assert(attrs@.skip(i as int) =~= Seq::<Attr>::empty());
    Ok(settings)
}

/// The setting a derive requires, or the fault that names the derive and
/// the missing key.
pub fn required(settings: &KeyedMap<String>, key: &str, derive: &str) -> (r: Result<String, AttrFault>)
    ensures
        match lookup(settings@, key@) {
            Some(v) => r == Ok::<String, AttrFault>(v),
            None => r matches Err(e) && e@ == AttrFaultView::Missing(derive@, key@),
        },
{
    match settings.get(key) {
        Some(v) => Ok(v.clone()),
        None => Err(AttrFault::Missing { derive: owned(derive), key: owned(key) }),
    }
}

/// Of a nested list, the serialize side is the value named `serialize`:
/// there is one exactly when some string value is named `serialize`, and
/// then it is the last such value; a value under any other name never
/// becomes the key.
pub proof fn lemma_serialize_side_is_the_serialize_value(nested: Seq<NestedMeta>)
    ensures
        (exists|j: int| 0 <= j < nested.len() && (#[trigger] nested[j] matches NestedMeta::Value(n, MetaValue::Str(_)) && named(n, "serialize"@)))
            <==> serialize_side(nested) is Some,
        serialize_side(nested) matches Some(t) ==> exists|j: int| 0 <= j < nested.len() && {
            &&& #[trigger] nested[j] matches NestedMeta::Value(n, MetaValue::Str(x)) && named(n, "serialize"@) && x@ == t
            &&& forall|k: int| j < k < nested.len() ==> !(#[trigger] nested[k] matches NestedMeta::Value(n, MetaValue::Str(_)) && named(n, "serialize"@))
        },
    decreases nested.len(),
{
    if nested.len() > 0 {
        let init = nested.drop_last();
        lemma_serialize_side_is_the_serialize_value(init);
        let last = nested.last();
        assert(last == nested[nested.len() - 1]);
        assert forall|j: int| 0 <= j < init.len() implies init[j] == nested[j] by {}
        if last matches NestedMeta::Value(n, MetaValue::Str(_)) && named(n, "serialize"@) {
        } else {
            if serialize_side(nested) is Some {
                let t = serialize_side(nested)->0;
                let j = choose|j: int| 0 <= j < init.len() && {
                    &&& #[trigger] init[j] matches NestedMeta::Value(n, MetaValue::Str(x)) && named(n, "serialize"@) && x@ == t
                    &&& forall|k: int| j < k < init.len() ==> !(#[trigger] init[k] matches NestedMeta::Value(n, MetaValue::Str(_)) && named(n, "serialize"@))
                };
                assert(nested[j] == init[j]);
                assert forall|k: int| j < k < nested.len() implies !(#[trigger] nested[k] matches NestedMeta::Value(n, MetaValue::Str(_)) && named(n, "serialize"@)) by {
                    if k < init.len() {
                        assert(nested[k] == init[k]);
                    }
                }
            }
            if exists|j: int| 0 <= j < nested.len() && (#[trigger] nested[j] matches NestedMeta::Value(n, MetaValue::Str(_)) && named(n, "serialize"@)) {
                let j = choose|j: int| 0 <= j < nested.len() && (#[trigger] nested[j] matches NestedMeta::Value(n, MetaValue::Str(_)) && named(n, "serialize"@));
                assert(j < init.len());
                assert(init[j] == nested[j]);
            }
        }
    }
}

/// A field whose one serde attribute is `rename(serialize = "k",
/// deserialize = "d")` serializes under `k`, whatever its name and the
/// container's rule.
pub proof fn lemma_rename_serialize_names_the_key(
    ident: Seq<char>,
    attrs: Seq<Attr>,
    rule: Option<RenameRule>,
    rename: Option<String>,
    nested: Vec<NestedMeta>,
    serialize: Option<String>,
    k: String,
    deserialize: Option<String>,
    d: String,
)
    requires
        attrs.len() == 1,
        named(attrs[0].path, "serde"@),
        attrs[0].complete,
        attrs[0].items@ == seq![Meta::List(rename, nested, true)],
        named(rename, "rename"@),
        named(serialize, "serialize"@),
        named(deserialize, "deserialize"@),
        nested@ == seq![NestedMeta::Value(serialize, MetaValue::Str(k)), NestedMeta::Value(deserialize, MetaValue::Str(d))],
    ensures
        serde_key_outcome(ident, attrs, rule) == KeyOutcomeView::Key(k@),
{
    reveal_strlit("rename");
    reveal_strlit("skip");
    reveal_strlit("skip_serializing");
    reveal_strlit("flatten");
    reveal_strlit("serialize");
    reveal_strlit("deserialize");
    let a = attrs[0];
    let m = Meta::List(rename, nested, true);
    assert(a.items@[0] == m);
    assert(field_attr_parses(a));
    assert(!attr_malformed(a));
    assert("deserialize"@.len() == 11 && "serialize"@.len() == 9);
    assert("rename"@.len() == 6 && "skip"@.len() == 4 && "skip_serializing"@.len() == 16 && "flatten"@.len() == 7);
    assert(nested@.drop_last() =~= seq![NestedMeta::Value(serialize, MetaValue::Str(k))]);
    assert(!named(deserialize, "serialize"@));
    assert(serialize_side(nested@.drop_last()) == Some(k@));
    assert(serialize_side(nested@) == Some(k@));
    assert(rename_text(m) == Some(k@));
    assert(meta_name(m) == rename);
    assert(!named(rename, "skip"@) && !named(rename, "skip_serializing"@) && !named(rename, "flatten"@));
    assert(!is_skip_item(m));
    assert(!is_flatten_item(m));
    assert(!is_unreadable_rename(m));
    assert(!attr_holds(a, ItemKind::Skip));
    assert(!attr_holds(a, ItemKind::Flatten));
    assert(!attr_holds(a, ItemKind::UnreadableRename));
    assert(a.items@.drop_last() =~= Seq::<Meta>::empty());
    assert(last_rename_in(a.items@) == Some(k@));
    assert(attrs.drop_last() =~= Seq::<Attr>::empty());
    assert(last_rename(attrs) == Some(k@));
}

/// A field whose one serde attribute is `rename = "k"` serializes under
/// `k`, whatever its name and the container's rule.
pub proof fn lemma_rename_value_names_the_key(
    ident: Seq<char>,
    attrs: Seq<Attr>,
    rule: Option<RenameRule>,
    rename: Option<String>,
    k: String,
)
    requires
        attrs.len() == 1,
        named(attrs[0].path, "serde"@),
        attrs[0].complete,
        attrs[0].items@ == seq![Meta::Value(rename, MetaValue::Str(k))],
        named(rename, "rename"@),
    ensures
        serde_key_outcome(ident, attrs, rule) == KeyOutcomeView::Key(k@),
{
    reveal_strlit("rename");
    reveal_strlit("skip");
    reveal_strlit("skip_serializing");
    reveal_strlit("flatten");
    assert("rename"@.len() == 6 && "skip"@.len() == 4 && "skip_serializing"@.len() == 16 && "flatten"@.len() == 7);
    let a = attrs[0];
    let m = Meta::Value(rename, MetaValue::Str(k));
    assert(a.items@[0] == m);
    assert(field_attr_parses(a));
    assert(!named(rename, "skip"@) && !named(rename, "skip_serializing"@) && !named(rename, "flatten"@));
    assert(!attr_holds(a, ItemKind::Skip));
    assert(!attr_holds(a, ItemKind::Flatten));
    assert(!attr_holds(a, ItemKind::UnreadableRename));
    assert(a.items@.drop_last() =~= Seq::<Meta>::empty());
    assert(last_rename_in(a.items@) == Some(k@));
    assert(attrs.drop_last() =~= Seq::<Attr>::empty());
}

} // verus!
