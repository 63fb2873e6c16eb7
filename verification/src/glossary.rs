//! The glossary declaration read out of its front-matter value. Two
//! spellings give one declaration: the flat one, a mapping of term to
//! definition, and the structured one that names its parts (`style`,
//! `groups`, `entries`); a term the structured part declares wins over
//! the same term written flat beside it.

use std::collections::BTreeMap;
use vstd::prelude::*;
use vstd::string::*;
use crate::attrs::owned_opt;
use crate::frontmatter::{is, GlossaryDecl, GlossaryEntry, GlossaryGroup};
use crate::head::{trim_copy, trimmed};
use crate::keys::{key_is, lookup, Json};
use crate::structural::{model, JsonModel};
use crate::text::owned;
use vstd::laws_cmp::obeys_cmp;

verus! {

/// `s` without its surrounding whitespace, when anything is left.
pub open spec fn non_empty_spec(s: Seq<u8>) -> Option<Seq<u8>> {
    if trimmed(s).len() == 0 {
        None
    } else {
        Some(trimmed(s))
    }
}

/// The trimmed text, when anything is left of it.
fn non_empty(text: &str) -> (r: Option<String>)
    ensures
        owned_opt(r) == non_empty_spec(text.spec_bytes()),
{
    let t = trim_copy(text);
    if t.as_str().as_bytes().len() == 0 {
        None
    } else {
        Some(t)
    }
}

/// The value of the first entry of `e` whose key is `k`.
fn get<'a>(e: &'a Vec<(String, Json)>, k: &str) -> (r: Option<&'a Json>)
    ensures
        match lookup(e@, k.spec_bytes()) {
            Some(v) => r matches Some(x) && *x == v,
            None => r is None,
        },
{
    let mut i: usize = 0;
    proof {
        assert(e@.skip(0) =~= e@);
    }
    while i < e.len()
        invariant
            i <= e@.len(),
            lookup(e@, k.spec_bytes()) == lookup(e@.skip(i as int), k.spec_bytes()),
        decreases e.len() - i,
    {
        proof {
            assert(e@.skip(i as int)[0] == e@[i as int]);
            assert(e@.skip(i as int).drop_first() =~= e@.skip(i + 1));
        }
        if key_is(&e[i], k) {
            return Some(&e[i].1);
        }
        i = i + 1;
    }
    proof {
        assert(e@.skip(i as int).len() == 0);
    }
    None
}

/// What `serde_json` writes for a value: the `Display` of
/// `serde_json::Value`, compact JSON. A function of the value alone.
pub uninterp spec fn json_written(v: JsonModel) -> Seq<char>;

/// Converts the library's value into a `serde_json::Value`, one for one;
/// a number whose text `serde_json` cannot read stays a string. Nothing
/// is claimed here; `json_text` names the whole writing.
#[verifier::external_body]
fn value_of(v: &Json) -> serde_json::Value {
    match v {
        Json::Null => serde_json::Value::Null,
        Json::Bool(b) => serde_json::Value::Bool(*b),
        Json::Number(n) => match n.parse::<serde_json::Number>() {
            Ok(x) => serde_json::Value::Number(x),
            Err(_) => serde_json::Value::String(n.clone()),
        },
        Json::Str(s) => serde_json::Value::String(s.clone()),
        Json::Array(a) => serde_json::Value::Array(a.iter().map(value_of).collect()),
        Json::Object(m) => serde_json::Value::Object(m.iter().map(|(k, x)| (k.clone(), value_of(x))).collect()),
    }
}

/// Calls `ToString::to_string` on the `serde_json::Value` the value
/// stands for (its `Display`, compact JSON): what it writes is a function
/// of the value alone, named `json_written`.
#[verifier::external_body]
fn json_text(v: &Json) -> (r: String)
    ensures
        r@ == json_written(model(*v)),
{
    value_of(v).to_string()
}

/// The title of a group: the string itself, or the `title` string of a
/// mapping; empty otherwise.
pub open spec fn group_title(v: Json) -> Seq<u8> {
    match v {
        Json::Str(t) => owned(t),
        Json::Object(m) => match lookup(m@, "title".spec_bytes()) {
            Some(Json::Str(t)) => owned(t),
            _ => seq![],
        },
        _ => seq![],
    }
}

/// The trimmed string under `k` in a mapping, when it is a string with
/// anything left after trimming.
pub open spec fn field_spec(m: Seq<(String, Json)>, k: Seq<u8>) -> Option<Seq<u8>> {
    match lookup(m, k) {
        Some(Json::Str(s)) => non_empty_spec(owned(s)),
        _ => None,
    }
}

/// The term a value declares: nothing for `null`, the trimmed definition
/// for a string, the four trimmed fields of a mapping, and for any other
/// value its JSON text as the description.
pub open spec fn entry_spec(v: Json, e: GlossaryEntry) -> bool {
    match v {
        Json::Null => e.name is None && e.description is None && e.long is None && e.group is None,
        Json::Str(t) => e.name is None && owned_opt(e.description) == non_empty_spec(owned(t))
            && e.long is None && e.group is None,
        Json::Object(m) => owned_opt(e.name) == field_spec(m@, "name".spec_bytes()) && owned_opt(
            e.description,
        ) == field_spec(m@, "description".spec_bytes()) && owned_opt(e.long) == field_spec(
            m@,
            "long".spec_bytes(),
        ) && owned_opt(e.group) == field_spec(m@, "group".spec_bytes()),
        _ => e.name is None && (e.description matches Some(d) && d@ == json_written(model(v)))
            && e.long is None && e.group is None,
    }
}

/// The empty string, as bytes.
fn empty() -> (r: String)
    ensures
        owned(r) == Seq::<u8>::empty(),
{
    let r = String::new();
    proof {
        assert(r@ =~= Seq::<char>::empty());
        assert(owned(r) =~= Seq::<u8>::empty());
    }
    r
}

/// A copy of a string.
fn copy(s: &String) -> (r: String)
    ensures
        r@ == s@,
{
    s.clone()
}

impl GlossaryGroup {
    /// A group from its value: `core: Core terms` or
    /// `core: {title: Core terms}`; any other value gives an empty title.
    pub fn from_value(value: &Json) -> (r: GlossaryGroup)
        ensures
            owned(r.title) == group_title(*value),
    {
        match value {
            Json::Str(t) => GlossaryGroup { title: copy(t) },
            Json::Object(m) => match get(m, "title") {
                Some(Json::Str(t)) => GlossaryGroup { title: copy(t) },
                _ => GlossaryGroup { title: empty() },
            },
            _ => GlossaryGroup { title: empty() },
        }
    }
}

/// The trimmed string under `k`, when there is one.
fn field(m: &Vec<(String, Json)>, k: &str) -> (r: Option<String>)
    ensures
        owned_opt(r) == field_spec(m@, k.spec_bytes()),
{
    match get(m, k) {
        Some(Json::Str(s)) => non_empty(s.as_str()),
        _ => None,
    }
}

impl GlossaryEntry {
    /// A term from its value: `api: An interface` sets the description;
    /// the mapping form sets `name`, `description`, `long` and `group`;
    /// `null` declares the term with nothing; any other value's JSON text
    /// is its description.
    pub fn from_value(value: &Json) -> (r: GlossaryEntry)
        ensures
            entry_spec(*value, r),
    {
        match value {
            Json::Null => GlossaryEntry { name: None, description: None, long: None, group: None },
            Json::Str(t) => GlossaryEntry {
                name: None,
                description: non_empty(t.as_str()),
                long: None,
                group: None,
            },
            Json::Object(m) => GlossaryEntry {
                name: field(m, "name"),
                description: field(m, "description"),
                long: field(m, "long"),
                group: field(m, "group"),
            },
            _ => GlossaryEntry {
                name: None,
                description: Some(json_text(value)),
                long: None,
                group: None,
            },
        }
    }
}

/// The keys of the structured spelling; never terms at the top level.
pub open spec fn structural_key(k: Seq<u8>) -> bool {
    k == "style".spec_bytes() || k == "groups".spec_bytes() || k == "entries".spec_bytes()
}

/// The entries of the mapping under `k`; none when no mapping is there.
pub open spec fn part(m: Seq<(String, Json)>, k: Seq<u8>) -> Seq<(String, Json)> {
    match lookup(m, k) {
        Some(Json::Object(g)) => g@,
        _ => seq![],
    }
}

/// The style a value declares: a string value is the style itself, a
/// mapping's is the trimmed string under `style`.
pub open spec fn style_spec(v: Json) -> Option<Seq<u8>> {
    match v {
        Json::Str(s) => non_empty_spec(owned(s)),
        Json::Object(m) => field_spec(m@, "style".spec_bytes()),
        _ => None,
    }
}

/// The keys of a list of items, as bytes.
pub open spec fn keys_of<V>(items: Seq<(String, V)>) -> Seq<Seq<u8>> {
    items.map_values(|p: (String, V)| owned(p.0))
}

/// The positions, from `i` on, of the top-level entries of `m` that are
/// terms of the flat spelling: not a structural key, and not declared
/// before (`seen`, then each term taken).
pub open spec fn flat_picks(m: Seq<(String, Json)>, seen: Seq<Seq<u8>>, i: int) -> Seq<int>
    decreases m.len() - i,
{
    if i < 0 || i >= m.len() {
        seq![]
    } else if structural_key(owned(m[i].0)) || seen.contains(owned(m[i].0)) {
        flat_picks(m, seen, i + 1)
    } else {
        seq![i] + flat_picks(m, seen.push(owned(m[i].0)), i + 1)
    }
}

/// Each position `flat_picks` gives lies in `[i, m.len())`.
proof fn lemma_picks_bounds(m: Seq<(String, Json)>, seen: Seq<Seq<u8>>, i: int)
    requires
        0 <= i,
    ensures
        forall|j: int|
            0 <= j < flat_picks(m, seen, i).len() ==> i <= #[trigger] flat_picks(m, seen, i)[j]
                < m.len(),
    decreases m.len() - i,
{
    if i < m.len() {
        if structural_key(owned(m[i].0)) || seen.contains(owned(m[i].0)) {
            lemma_picks_bounds(m, seen, i + 1);
            assert(flat_picks(m, seen, i) == flat_picks(m, seen, i + 1));
            assert forall|j: int| 0 <= j < flat_picks(m, seen, i).len() implies i
                <= #[trigger] flat_picks(m, seen, i)[j] < m.len() by {
                assert(flat_picks(m, seen, i)[j] == flat_picks(m, seen, i + 1)[j]);
            }
        } else {
            let rest = flat_picks(m, seen.push(owned(m[i].0)), i + 1);
            lemma_picks_bounds(m, seen.push(owned(m[i].0)), i + 1);
            assert(flat_picks(m, seen, i) == seq![i] + rest);
            assert forall|j: int| 0 <= j < flat_picks(m, seen, i).len() implies i
                <= #[trigger] flat_picks(m, seen, i)[j] < m.len() by {
                if j > 0 {
                    assert(flat_picks(m, seen, i)[j] == rest[j - 1]);
                }
            }
        }
    }
}

/// Each position `flat_picks` gives holds a key that is not structural,
/// not seen before, and not taken twice.
proof fn lemma_picks_fresh(m: Seq<(String, Json)>, seen: Seq<Seq<u8>>, i: int)
    requires
        0 <= i,
    ensures
        ({
            let p = flat_picks(m, seen, i);
            &&& forall|j: int|
                0 <= j < p.len() ==> !structural_key(owned(m[#[trigger] p[j]].0)) && !seen.contains(
                    owned(m[p[j]].0),
                )
            &&& forall|j1: int, j2: int|
                0 <= j1 < j2 < p.len() ==> owned(m[#[trigger] p[j1]].0) != owned(
                    m[#[trigger] p[j2]].0,
                )
        }),
    decreases m.len() - i,
{
    let p = flat_picks(m, seen, i);
    if i < m.len() {
        let k = owned(m[i].0);
        if structural_key(k) || seen.contains(k) {
            lemma_picks_fresh(m, seen, i + 1);
            assert(p == flat_picks(m, seen, i + 1));
        } else {
            let s2 = seen.push(k);
            let rest = flat_picks(m, s2, i + 1);
            lemma_picks_fresh(m, s2, i + 1);
            assert(p == seq![i] + rest);
            assert forall|j: int| 0 <= j < p.len() implies !structural_key(
                owned(m[#[trigger] p[j]].0),
            ) && !seen.contains(owned(m[p[j]].0)) by {
                if j > 0 {
                    assert(p[j] == rest[j - 1]);
                    if seen.contains(owned(m[p[j]].0)) {
                        let x = choose|x: int| 0 <= x < seen.len() && seen[x] == owned(m[p[j]].0);
                        assert(s2[x] == seen[x]);
                    }
                }
            }
            assert forall|j1: int, j2: int| 0 <= j1 < j2 < p.len() implies owned(
                m[#[trigger] p[j1]].0,
            ) != owned(m[#[trigger] p[j2]].0) by {
                assert(p[j2] == rest[j2 - 1]);
                if j1 > 0 {
                    assert(p[j1] == rest[j1 - 1]);
                } else {
                    assert(p[j1] == i);
                    assert(s2[seen.len() as int] == k);
                }
            }
        }
    }
}

/// A term of the flat spelling never repeats one of the structured part,
/// never bears a structural key, and never repeats another flat term: a
/// term under `entries` wins over the flat term of the same key, `style`,
/// `groups` and `entries` are never terms, and of two flat terms of one
/// key the first is kept.
pub proof fn lemma_structured_terms_win(
    value: Json,
    ts: Seq<(String, GlossaryEntry)>,
    fs: Seq<(String, GlossaryEntry)>,
)
    requires
        flat_spec(value, ts, fs),
    ensures
        forall|j: int|
            0 <= j < fs.len() ==> !keys_of(ts).contains(owned((#[trigger] fs[j]).0))
                && !structural_key(owned(fs[j].0)),
        forall|j1: int, j2: int|
            0 <= j1 < j2 < fs.len() ==> owned((#[trigger] fs[j1]).0) != owned(
                (#[trigger] fs[j2]).0,
            ),
{
    if let Json::Object(m) = value {
        let p = flat_picks(m@, keys_of(ts), 0);
        lemma_picks_fresh(m@, keys_of(ts), 0);
        assert forall|j: int| 0 <= j < fs.len() implies !keys_of(ts).contains(
            owned((#[trigger] fs[j]).0),
        ) && !structural_key(owned(fs[j].0)) by {
            assert(owned(fs[j].0) == owned(m@[p[j]].0));
        }
        assert forall|j1: int, j2: int| 0 <= j1 < j2 < fs.len() implies owned(
            (#[trigger] fs[j1]).0,
        ) != owned((#[trigger] fs[j2]).0) by {
            assert(owned(fs[j1].0) == owned(m@[p[j1]].0));
            assert(owned(fs[j2].0) == owned(m@[p[j2]].0));
        }
    }
}

/// The groups a value declares, in the order of its `groups` mapping.
pub open spec fn groups_spec(v: Json, gs: Seq<(String, GlossaryGroup)>) -> bool {
    let g = match v {
        Json::Object(m) => part(m@, "groups".spec_bytes()),
        _ => seq![],
    };
    &&& gs.len() == g.len()
    &&& forall|j: int|
        0 <= j < g.len() ==> owned((#[trigger] gs[j]).0) == owned(g[j].0) && owned(gs[j].1.title)
            == group_title(g[j].1)
}

/// The terms of the `entries` mapping of a value, in its order.
pub open spec fn terms_spec(v: Json, ts: Seq<(String, GlossaryEntry)>) -> bool {
    let e = match v {
        Json::Object(m) => part(m@, "entries".spec_bytes()),
        _ => seq![],
    };
    &&& ts.len() == e.len()
    &&& forall|j: int|
        0 <= j < e.len() ==> owned((#[trigger] ts[j]).0) == owned(e[j].0) && entry_spec(
            e[j].1,
            ts[j].1,
        )
}

/// The terms of the flat spelling beside them: each top-level entry that
/// is not a structural key, in order, unless its term was declared
/// before.
pub open spec fn flat_spec(v: Json, ts: Seq<(String, GlossaryEntry)>, fs: Seq<(String, GlossaryEntry)>) -> bool {
    match v {
        Json::Object(m) => {
            let p = flat_picks(m@, keys_of(ts), 0);
            &&& fs.len() == p.len()
            &&& forall|j: int|
                0 <= j < p.len() ==> 0 <= p[j] < m@.len() && owned((#[trigger] fs[j]).0) == owned(
                    m@[p[j]].0,
                ) && entry_spec(m@[p[j]].1, fs[j].1)
        },
        _ => fs.len() == 0,
    }
}

/// Whether some item of `items` has the key `k`.
fn has_key<V>(items: &Vec<(String, V)>, k: &String) -> (r: bool)
    ensures
        r == keys_of(items@).contains(owned(*k)),
{
    let mut j: usize = 0;
    while j < items.len()
        invariant
            j <= items@.len(),
            forall|x: int| 0 <= x < j ==> keys_of(items@)[x] != owned(*k),
        decreases items.len() - j,
    {
        if is(items[j].0.as_str().as_bytes(), k.as_str()) {
            proof {
                assert(keys_of(items@)[j as int] == owned(*k));
            }
            return true;
        }
        j = j + 1;
    }
    false
}

/// Whether `k` is a structural key.
fn is_structural(k: &String) -> (r: bool)
    ensures
        r == structural_key(owned(*k)),
{
    let b = k.as_str().as_bytes();
    is(b, "style") || is(b, "groups") || is(b, "entries")
}

/// The groups of a `groups` mapping, in its order.
fn groups_in(g: &Vec<(String, Json)>) -> (r: Vec<(String, GlossaryGroup)>)
    ensures
        r@.len() == g@.len(),
        forall|j: int|
            0 <= j < g@.len() ==> owned((#[trigger] r@[j]).0) == owned(g@[j].0) && owned(
                r@[j].1.title,
            ) == group_title(g@[j].1),
{
    let mut r: Vec<(String, GlossaryGroup)> = Vec::new();
    let mut i: usize = 0;
    while i < g.len()
        invariant
            i <= g@.len(),
            r@.len() == i,
            forall|j: int|
                0 <= j < i ==> owned((#[trigger] r@[j]).0) == owned(g@[j].0) && owned(
                    r@[j].1.title,
                ) == group_title(g@[j].1),
        decreases g.len() - i,
    {
        let k = copy(&g[i].0);
        let x = GlossaryGroup::from_value(&g[i].1);
        r.push((k, x));
        i = i + 1;
    }
    r
}

/// The terms of an `entries` mapping, in its order.
fn terms_in(e: &Vec<(String, Json)>) -> (r: Vec<(String, GlossaryEntry)>)
    ensures
        r@.len() == e@.len(),
        forall|j: int|
            0 <= j < e@.len() ==> owned((#[trigger] r@[j]).0) == owned(e@[j].0) && entry_spec(
                e@[j].1,
                r@[j].1,
            ),
{
    let mut r: Vec<(String, GlossaryEntry)> = Vec::new();
    let mut i: usize = 0;
    while i < e.len()
        invariant
            i <= e@.len(),
            r@.len() == i,
            forall|j: int|
                0 <= j < i ==> owned((#[trigger] r@[j]).0) == owned(e@[j].0) && entry_spec(
                    e@[j].1,
                    r@[j].1,
                ),
        decreases e.len() - i,
    {
        let k = copy(&e[i].0);
        let x = GlossaryEntry::from_value(&e[i].1);
        r.push((k, x));
        i = i + 1;
    }
    r
}

/// The terms of the flat spelling among the top-level entries `m`, the
/// terms `ts` of the structured part counting as declared.
fn flat_in(m: &Vec<(String, Json)>, ts: &Vec<(String, GlossaryEntry)>) -> (r: Vec<(String, GlossaryEntry)>)
    ensures
        ({
            let p = flat_picks(m@, keys_of(ts@), 0);
            &&& r@.len() == p.len()
            &&& forall|j: int|
                0 <= j < p.len() ==> 0 <= p[j] < m@.len() && owned((#[trigger] r@[j]).0) == owned(
                    m@[p[j]].0,
                ) && entry_spec(m@[p[j]].1, r@[j].1)
        }),
{
    let mut r: Vec<(String, GlossaryEntry)> = Vec::new();
    let ghost mut done: Seq<int> = seq![];
    let mut i: usize = 0;
    proof {
        assert(keys_of(r@) =~= Seq::<Seq<u8>>::empty());
        assert(keys_of(ts@) + keys_of(r@) =~= keys_of(ts@));
        assert(done + flat_picks(m@, keys_of(ts@), 0) =~= flat_picks(m@, keys_of(ts@), 0));
    }
    while i < m.len()
        invariant
            i <= m@.len(),
            flat_picks(m@, keys_of(ts@), 0) == done + flat_picks(
                m@,
                keys_of(ts@) + keys_of(r@),
                i as int,
            ),
            r@.len() == done.len(),
            forall|j: int|
                0 <= j < done.len() ==> owned((#[trigger] r@[j]).0) == owned(m@[done[j]].0)
                    && entry_spec(m@[done[j]].1, r@[j].1),
        decreases m.len() - i,
    {
        let ghost seen = keys_of(ts@) + keys_of(r@);
        let k = &m[i].0;
        let structural = is_structural(k);
        let declared = structural || has_key(ts, k) || has_key(&r, k);
        proof {
            assert(seen.contains(owned(*k)) <==> (keys_of(ts@).contains(owned(*k)) || keys_of(
                r@,
            ).contains(owned(*k)))) by {
                if seen.contains(owned(*k)) {
                    let x = choose|x: int| 0 <= x < seen.len() && seen[x] == owned(*k);
                    if x < keys_of(ts@).len() {
                        assert(keys_of(ts@)[x] == owned(*k));
                    } else {
                        assert(keys_of(r@)[x - keys_of(ts@).len()] == owned(*k));
                    }
                }
                if keys_of(ts@).contains(owned(*k)) {
                    let x = choose|x: int|
                        0 <= x < keys_of(ts@).len() && keys_of(ts@)[x] == owned(*k);
                    assert(seen[x] == owned(*k));
                }
                if keys_of(r@).contains(owned(*k)) {
                    let x = choose|x: int| 0 <= x < keys_of(r@).len() && keys_of(r@)[x] == owned(*k);
                    assert(seen[x + keys_of(ts@).len()] == owned(*k));
                }
            }
        }
        if !declared {
            let key = copy(k);
            let x = GlossaryEntry::from_value(&m[i].1);
            let ghost old_r = r@;
            r.push((key, x));
            proof {
                assert(r@[done.len() as int] == (key, x));
                assert forall|j: int| 0 <= j < done.len() implies r@[j] == old_r[j] by {}
                assert(keys_of(r@) =~= keys_of(old_r).push(owned(*k)));
                assert(keys_of(ts@) + keys_of(r@) =~= seen.push(owned(*k)));
                assert(done + flat_picks(m@, seen, i as int) =~= done.push(i as int)
                    + flat_picks(m@, seen.push(owned(*k)), i + 1));
                let ghost d0 = done;
                done = done.push(i as int);
                assert forall|j: int| 0 <= j < done.len() implies owned(
                    (#[trigger] r@[j]).0,
                ) == owned(m@[done[j]].0) && entry_spec(m@[done[j]].1, r@[j].1) by {
                    if j < d0.len() {
                        assert(done[j] == d0[j]);
                        assert(r@[j] == old_r[j]);
                    } else {
                        assert(done[j] == i);
                    }
                }
            }
        }
        i = i + 1;
    }
    proof {
        assert(flat_picks(m@, keys_of(ts@) + keys_of(r@), i as int) =~= Seq::<int>::empty());
        assert(done =~= flat_picks(m@, keys_of(ts@), 0));
        lemma_picks_bounds(m@, keys_of(ts@), 0);
    }
    r
}

/// The groups, the structured terms and the flat terms a glossary value
/// declares, each in the order it was written.
pub fn glossary_items(value: &Json) -> (r: (
    Vec<(String, GlossaryGroup)>,
    Vec<(String, GlossaryEntry)>,
    Vec<(String, GlossaryEntry)>,
))
    ensures
        groups_spec(*value, r.0@),
        terms_spec(*value, r.1@),
        flat_spec(*value, r.1@, r.2@),
{
    match value {
        Json::Object(m) => {
            let groups = match get(m, "groups") {
                Some(Json::Object(g)) => groups_in(g),
                _ => Vec::new(),
            };
            let terms = match get(m, "entries") {
                Some(Json::Object(e)) => terms_in(e),
                _ => Vec::new(),
            };
            let flat = flat_in(m, &terms);
            proof {
                lemma_picks_bounds(m@, keys_of(terms@), 0);
            }
            (groups, terms, flat)
        },
        _ => (Vec::new(), Vec::new(), Vec::new()),
    }
}

/// Whether `String` keys order as vstd's model of `Ord` says, the
/// condition under which vstd states what a `BTreeMap` holds.
pub open spec fn ordered_keys() -> bool {
    obeys_cmp::<String>()
}

/// The map that inserting `items` one after the other into `base` makes:
/// the last item of a key wins.
pub open spec fn put_all<V>(base: Map<String, V>, items: Seq<(String, V)>) -> Map<String, V>
    decreases items.len(),
{
    if items.len() == 0 {
        base
    } else {
        put_all(base, items.drop_last()).insert(items.last().0, items.last().1)
    }
}

/// Inserts `items` into `map`, one after the other.
fn insert_all<V>(map: &mut BTreeMap<String, V>, items: Vec<(String, V)>)
    ensures
        ordered_keys() ==> final(map)@ == put_all(old(map)@, items@),
{
    let ghost all = items@;
    let ghost base = old(map)@;
    let mut items = items;
    let total = items.len();
    let mut n: usize = 0;
    proof {
        assert(all.subrange(0, 0) =~= Seq::<(String, V)>::empty());
        assert(all.subrange(0, all.len() as int) =~= all);
    }
    while items.len() > 0
        invariant
            n + items@.len() == all.len(),
            all.len() <= usize::MAX,
            items@ == all.subrange(n as int, all.len() as int),
            ordered_keys() ==> map@ == put_all(base, all.subrange(0, n as int)),
        decreases items.len(),
    {
        let (k, v) = items.remove(0);
        proof {
            assert(all[n as int] == (k, v));
            assert(all.subrange(0, n + 1).drop_last() =~= all.subrange(0, n as int));
        }
        map.insert(k, v);
        n = n + 1;
        proof {
            assert(items@ =~= all.subrange(n as int, all.len() as int));
        }
    }
    proof {
        assert(all.subrange(0, n as int) =~= all);
    }
}

impl GlossaryDecl {
    /// Reads either spelling out of its value; anything that is neither
    /// a mapping nor a style string declares nothing. The groups and the
    /// terms are what `glossary_items` gives, inserted in order, a
    /// structured term winning over the flat one of the same key.
    pub fn from_value(value: &Json) -> (r: GlossaryDecl)
        ensures
            owned_opt(r.style) == style_spec(*value),
            ordered_keys() ==> exists|
                gs: Seq<(String, GlossaryGroup)>,
                ts: Seq<(String, GlossaryEntry)>,
                fs: Seq<(String, GlossaryEntry)>,
            |
                #![trigger groups_spec(*value, gs), flat_spec(*value, ts, fs)]
                groups_spec(*value, gs) && terms_spec(*value, ts) && flat_spec(*value, ts, fs)
                    && r.groups@ == put_all(Map::empty(), gs) && r.entries@ == put_all(
                    Map::empty(),
                    ts + fs,
                ),
    {
        let style = match value {
            Json::Str(s) => non_empty(s.as_str()),
            Json::Object(m) => field(m, "style"),
            _ => None,
        };
        let (groups, terms, flat) = glossary_items(value);
        let ghost gs = groups@;
        let ghost ts = terms@;
        let ghost fs = flat@;
        let mut group_map: BTreeMap<String, GlossaryGroup> = BTreeMap::new();
        insert_all(&mut group_map, groups);
        let mut entry_map: BTreeMap<String, GlossaryEntry> = BTreeMap::new();
        let mut all = terms;
        let mut rest = flat;
        all.append(&mut rest);
        insert_all(&mut entry_map, all);
        let r = GlossaryDecl { style, groups: group_map, entries: entry_map };
        proof {
            assert(groups_spec(*value, gs) && flat_spec(*value, ts, fs));
        }
        r
    }
}

} // verus!
