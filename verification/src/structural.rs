//! The structural form of a document's JSON: what the conformance
//! fixtures store and the round trips compare. The node identities (an
//! `id` beside a `span`), every span, the fields that only record which
//! spelling was written, and the values that mean "absent" are dropped;
//! booleans and numbers stay.

use vstd::prelude::*;
use vstd::string::*;
use crate::keys::{drop_key, key_is, remove_key, Json};
use crate::frontmatter::is;
use crate::text::{owned, range_eq};

verus! {

/// A JSON value with every string taken as its UTF-8 bytes.
pub enum JsonModel {
    Null,
    Bool(bool),
    Number(Seq<u8>),
    Str(Seq<u8>),
    Array(Seq<JsonModel>),
    Object(Seq<(Seq<u8>, JsonModel)>),
}

/// The model of a value.
pub open spec fn model(j: Json) -> JsonModel
    decreases j,
{
    match j {
        Json::Null => JsonModel::Null,
        Json::Bool(b) => JsonModel::Bool(b),
        Json::Number(n) => JsonModel::Number(owned(n)),
        Json::Str(s) => JsonModel::Str(owned(s)),
        Json::Array(items) => JsonModel::Array(models(items@)),
        Json::Object(entries) => JsonModel::Object(entry_models(entries@)),
    }
}

/// The models of a list of values.
pub open spec fn models(s: Seq<Json>) -> Seq<JsonModel>
    decreases s,
{
    if s.len() == 0 {
        seq![]
    } else {
        models(s.drop_last()).push(model(s.last()))
    }
}

/// The models of the entries of a mapping.
pub open spec fn entry_models(e: Seq<(String, Json)>) -> Seq<(Seq<u8>, JsonModel)>
    decreases e,
{
    if e.len() == 0 {
        seq![]
    } else {
        entry_models(e.drop_last()).push((owned(e.last().0), model(e.last().1)))
    }
}

/// Whether `k` ends with `suffix`.
pub open spec fn ends_with(k: Seq<u8>, suffix: Seq<u8>) -> bool {
    k.len() >= suffix.len() && k.subrange(k.len() - suffix.len(), k.len() as int) == suffix
}

/// The keys the structural form drops from a mapping: every span, the
/// `id` of a node (a mapping that has a `span`), and the fields that only
/// record which spelling was written (`position`, `bracketed`).
pub open spec fn dropped_key(k: Seq<u8>, node: bool) -> bool {
    ||| k == "span".spec_bytes()
    ||| (node && k == "id".spec_bytes())
    ||| ends_with(k, "_span".spec_bytes())
    ||| k == "position".spec_bytes()
    ||| k == "bracketed".spec_bytes()
}

/// The values that mean "absent": `null`, and an empty string, list or
/// mapping.
pub open spec fn absent(v: JsonModel) -> bool {
    match v {
        JsonModel::Null => true,
        JsonModel::Str(s) => s.len() == 0,
        JsonModel::Array(a) => a.len() == 0,
        JsonModel::Object(o) => o.len() == 0,
        JsonModel::Bool(_) => false,
        JsonModel::Number(_) => false,
    }
}

/// Whether a mapping has a `span` entry: it is a node.
pub open spec fn has_span(e: Seq<(Seq<u8>, JsonModel)>) -> bool {
    exists|i: int| 0 <= i < e.len() && #[trigger] e[i].0 == "span".spec_bytes()
}

/// A value without identity and spelling, every level of it.
pub open spec fn strip(v: JsonModel) -> JsonModel
    decreases v,
{
    match v {
        JsonModel::Array(s) => JsonModel::Array(strip_all(s)),
        JsonModel::Object(e) => JsonModel::Object(strip_entries(e, has_span(e))),
        _ => v,
    }
}

/// Every value of a list stripped.
pub open spec fn strip_all(s: Seq<JsonModel>) -> Seq<JsonModel>
    decreases s,
{
    if s.len() == 0 {
        seq![]
    } else {
        strip_all(s.drop_last()).push(strip(s.last()))
    }
}

/// The entries of a mapping stripped, in order: a dropped key goes, and
/// so does an entry whose stripped value is absent.
pub open spec fn strip_entries(e: Seq<(Seq<u8>, JsonModel)>, node: bool) -> Seq<(Seq<u8>, JsonModel)>
    decreases e,
{
    if e.len() == 0 {
        seq![]
    } else {
        let rest = strip_entries(e.drop_last(), node);
        let k = e.last().0;
        let v = strip(e.last().1);
        if dropped_key(k, node) || absent(v) {
            rest
        } else {
            rest.push((k, v))
        }
    }
}

proof fn lemma_models(s: Seq<Json>)
    ensures
        models(s).len() == s.len(),
        forall|i: int| 0 <= i < s.len() ==> #[trigger] models(s)[i] == model(s[i]),
    decreases s.len(),
{
    if s.len() > 0 {
        lemma_models(s.drop_last());
    }
}

proof fn lemma_entry_models(e: Seq<(String, Json)>)
    ensures
        entry_models(e).len() == e.len(),
        forall|i: int|
            0 <= i < e.len() ==> #[trigger] entry_models(e)[i] == (owned(e[i].0), model(e[i].1)),
    decreases e.len(),
{
    if e.len() > 0 {
        lemma_entry_models(e.drop_last());
    }
}

/// Whether the bytes of `b` end with those of `suffix`.
fn ends_with_bytes(b: &[u8], suffix: &str) -> (r: bool)
    ensures
        r == ends_with(b@, suffix.spec_bytes()),
{
    let x = suffix.as_bytes();
    b.len() >= x.len() && range_eq(b, b.len() - x.len(), b.len(), x)
}

/// Whether the structural form drops the key `k`.
fn is_dropped(k: &str, node: bool) -> (r: bool)
    ensures
        r == dropped_key(k.spec_bytes(), node),
{
    let b = k.as_bytes();
    is(b, "span") || (node && is(b, "id")) || ends_with_bytes(b, "_span") || is(b, "position")
        || is(b, "bracketed")
}

/// Whether a value means "absent".
pub fn is_absent(value: &Json) -> (r: bool)
    ensures
        r == absent(model(*value)),
{
    match value {
        Json::Null => true,
        Json::Bool(_) => false,
        Json::Number(_) => false,
        Json::Str(s) => s.as_str().as_bytes().len() == 0,
        Json::Array(a) => {
            proof {
                lemma_models(a@);
            }
            a.len() == 0
        },
        Json::Object(o) => {
            proof {
                lemma_entry_models(o@);
            }
            o.len() == 0
        },
    }
}

/// Whether a mapping has a `span` entry.
fn has_span_key(entries: &Vec<(String, Json)>) -> (r: bool)
    ensures
        r == has_span(entry_models(entries@)),
{
    proof {
        lemma_entry_models(entries@);
    }
    let mut i: usize = 0;
    while i < entries.len()
        invariant
            0 <= i <= entries@.len(),
            entry_models(entries@).len() == entries@.len(),
            forall|j: int| 0 <= j < i ==> #[trigger] owned(entries@[j].0) != "span".spec_bytes(),
        decreases entries@.len() - i,
    {
        if key_is(&entries[i], "span") {
            proof {
                lemma_entry_models(entries@);
                assert(entry_models(entries@)[i as int].0 == "span".spec_bytes());
            }
            return true;
        }
        i += 1;
    }
    proof {
        assert forall|j: int|
            0 <= j < entry_models(entries@).len() implies #[trigger] entry_models(entries@)[j].0
            != "span".spec_bytes() by {
            assert(entry_models(entries@)[j].0 == owned(entries@[j].0));
        }
    }
    false
}

/// The value without identity and spelling, every level of it: in each
/// mapping the spans, the `id` of a node, `position` and `bracketed` go,
/// then every entry whose value, stripped, is `null` or empty.
pub fn strip_identity(value: Json) -> (r: Json)
    ensures
        model(r) == strip(model(value)),
    decreases value,
{
    let ghost orig = value;
    match value {
        Json::Array(items) => {
            let ghost all = items@;
            proof {
                assert forall|j: int| 0 <= j < all.len() implies decreases_to!(orig => #[trigger] all[j]) by {
                    assert(decreases_to!(orig => items));
                    assert(decreases_to!(items => items@));
                    assert(decreases_to!(items@ => items@[j]));
                }
            }
            let mut rest = items;
            let mut out: Vec<Json> = Vec::new();
            let ghost mut k: int = 0;
            while rest.len() > 0
                invariant
                    0 <= k <= all.len(),
                    rest@ == all.subrange(k, all.len() as int),
                    value == orig,
                    models(out@) == strip_all(models(all.take(k))),
                    forall|j: int| 0 <= j < all.len() ==> decreases_to!(orig => #[trigger] all[j]),
                decreases rest@.len(),
            {
                let ghost before = out@;
                let x = rest.remove(0);
                proof {
                    assert(x == all[k]);
                }
                let y = strip_identity(x);
                out.push(y);
                proof {
                    assert(all.take(k + 1).drop_last() =~= all.take(k));
                    assert(models(all.take(k + 1)) == models(all.take(k)).push(model(all[k])));
                    assert(models(all.take(k + 1)).drop_last() =~= models(all.take(k)));
                    assert(out@.drop_last() =~= before);
                    k = k + 1;
                    assert(rest@ =~= all.subrange(k, all.len() as int));
                }
            }
            proof {
                assert(all.take(k) =~= all);
            }
            Json::Array(out)
        },
        Json::Object(entries) => {
            let node = has_span_key(&entries);
            let ghost all = entries@;
            proof {
                assert forall|j: int| 0 <= j < all.len() implies decreases_to!(orig => #[trigger] all[j].1) by {
                    assert(decreases_to!(orig => entries));
                    assert(decreases_to!(entries => entries@));
                    assert(decreases_to!(entries@ => entries@[j]));
                    assert(decreases_to!(entries@[j] => entries@[j].1));
                }
            }
            let mut rest = entries;
            let mut out: Vec<(String, Json)> = Vec::new();
            let ghost mut k: int = 0;
            while rest.len() > 0
                invariant
                    0 <= k <= all.len(),
                    value == orig,
                    node == has_span(entry_models(all)),
                    rest@ == all.subrange(k, all.len() as int),
                    entry_models(out@) == strip_entries(entry_models(all.take(k)), node),
                    forall|j: int| 0 <= j < all.len() ==> decreases_to!(orig => #[trigger] all[j].1),
                decreases rest@.len(),
            {
                let ghost before = out@;
                let (key, v) = rest.remove(0);
                proof {
                    assert((key, v) == all[k]);
                    assert(all.take(k + 1).drop_last() =~= all.take(k));
                    assert(entry_models(all.take(k + 1)) == entry_models(all.take(k)).push(
                        (owned(key), model(v)),
                    ));
                    assert(entry_models(all.take(k + 1)).drop_last() =~= entry_models(all.take(k)));
                }
                if !is_dropped(key.as_str(), node) {
                    let y = strip_identity(v);
                    if !is_absent(&y) {
                        out.push((key, y));
                        proof {
                            assert(out@.drop_last() =~= before);
                        }
                    }
                }
                proof {
                    k = k + 1;
                    assert(rest@ =~= all.subrange(k, all.len() as int));
                }
            }
            proof {
                assert(all.take(k) =~= all);
            }
            Json::Object(out)
        },
        other => other,
    }
}

/// The structural form of a document's JSON as serialised: its file id
/// dropped from the top level, then stripped of identity and spelling.
pub fn structural_json(value: Json) -> (r: Json)
    ensures
        model(r) == strip(
            match value {
                Json::Object(e) => JsonModel::Object(entry_models(drop_key(e@, "file".spec_bytes()))),
                _ => model(value),
            },
        ),
{
    match value {
        Json::Object(entries) => {
            let mut entries = entries;
            let _ = remove_key(&mut entries, "file");
            strip_identity(Json::Object(entries))
        },
        other => strip_identity(other),
    }
}

/// Whether no mapping of `v`, at any depth, has a span, a spelling
/// field or an absent value.
pub open spec fn clean(v: JsonModel) -> bool
    decreases v,
{
    match v {
        JsonModel::Array(s) => clean_all(s),
        JsonModel::Object(e) => clean_entries(e),
        _ => true,
    }
}

/// Whether every value of a list is clean.
pub open spec fn clean_all(s: Seq<JsonModel>) -> bool
    decreases s,
{
    s.len() == 0 || (clean_all(s.drop_last()) && clean(s.last()))
}

/// Whether no entry of a mapping has a span or a spelling field for key,
/// or an absent or unclean value.
pub open spec fn clean_entries(e: Seq<(Seq<u8>, JsonModel)>) -> bool
    decreases e,
{
    e.len() == 0 || (clean_entries(e.drop_last()) && !dropped_key(e.last().0, false) && !absent(
        e.last().1,
    ) && clean(e.last().1))
}

proof fn lemma_strip_clean_all(s: Seq<JsonModel>)
    ensures
        clean_all(strip_all(s)),
    decreases s,
{
    if s.len() > 0 {
        lemma_strip_clean_all(s.drop_last());
        lemma_strip_clean(s.last());
        assert(strip_all(s).drop_last() =~= strip_all(s.drop_last()));
    }
}

proof fn lemma_strip_clean_entries(e: Seq<(Seq<u8>, JsonModel)>, node: bool)
    ensures
        clean_entries(strip_entries(e, node)),
    decreases e,
{
    if e.len() > 0 {
        lemma_strip_clean_entries(e.drop_last(), node);
        lemma_strip_clean(e.last().1);
        let rest = strip_entries(e.drop_last(), node);
        let k = e.last().0;
        let v = strip(e.last().1);
        if !(dropped_key(k, node) || absent(v)) {
            assert(rest.push((k, v)).drop_last() =~= rest);
        }
    }
}

/// What the structural form promises: no mapping of it, at any depth,
/// has a span (`span` or a `*_span` key), a spelling field (`position`,
/// `bracketed`) or an absent value (`null`, an empty string, list or
/// mapping).
pub proof fn lemma_strip_clean(v: JsonModel)
    ensures
        clean(strip(v)),
    decreases v,
{
    match v {
        JsonModel::Array(s) => lemma_strip_clean_all(s),
        JsonModel::Object(e) => lemma_strip_clean_entries(e, has_span(e)),
        _ => {},
    }
}

proof fn lemma_clean_fixed_all(s: Seq<JsonModel>)
    requires
        clean_all(s),
    ensures
        strip_all(s) == s,
    decreases s,
{
    if s.len() > 0 {
        lemma_clean_fixed_all(s.drop_last());
        lemma_clean_fixed(s.last());
        assert(s.drop_last().push(s.last()) =~= s);
    }
}

proof fn lemma_clean_fixed_entries(e: Seq<(Seq<u8>, JsonModel)>)
    requires
        clean_entries(e),
    ensures
        strip_entries(e, false) == e,
    decreases e,
{
    if e.len() > 0 {
        lemma_clean_fixed_entries(e.drop_last());
        lemma_clean_fixed(e.last().1);
        assert(e.drop_last().push(e.last()) =~= e);
    }
}

proof fn lemma_no_span(e: Seq<(Seq<u8>, JsonModel)>)
    requires
        clean_entries(e),
    ensures
        !has_span(e),
    decreases e,
{
    if e.len() > 0 {
        lemma_no_span(e.drop_last());
        assert forall|i: int| 0 <= i < e.len() implies #[trigger] e[i].0 != "span".spec_bytes() by {
            if i < e.len() - 1 {
                assert(e.drop_last()[i] == e[i]);
            }
        }
    }
}

/// A clean value is its own structural form.
proof fn lemma_clean_fixed(v: JsonModel)
    requires
        clean(v),
    ensures
        strip(v) == v,
    decreases v,
{
    match v {
        JsonModel::Array(s) => lemma_clean_fixed_all(s),
        JsonModel::Object(e) => {
            lemma_no_span(e);
            lemma_clean_fixed_entries(e);
        },
        _ => {},
    }
}

/// The structural form is a fixed point: stripping it again changes
/// nothing.
pub proof fn lemma_strip_idempotent(v: JsonModel)
    ensures
        strip(strip(v)) == strip(v),
{
    lemma_strip_clean(v);
    lemma_clean_fixed(strip(v));
}

} // verus!
