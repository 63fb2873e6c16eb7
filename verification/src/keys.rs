//! The front matter as the YAML reader gives it, and how its keys are
//! sorted: every key TMark owns looked up under `press` first, then at
//! the root; a deprecated top-level spelling moved into its canonical
//! group unless that group already sets it; every other key kept as it
//! was written.

use vstd::prelude::*;
use vstd::string::*;
use crate::text::owned;

verus! {

/// A YAML value as the front matter reads it.
#[derive(Debug, PartialEq)]
pub enum Json {
    Null,
    Bool(bool),
    /// A number, as the reader writes it.
    Number(String),
    Str(String),
    Array(Vec<Json>),
    /// A mapping, its entries in the order the reader gives them (the
    /// YAML reader gives them sorted by key).
    Object(Vec<(String, Json)>),
}

/// The value of the first entry of `e` whose key is `k`.
pub open spec fn lookup(e: Seq<(String, Json)>, k: Seq<u8>) -> Option<Json>
    decreases e.len(),
{
    if e.len() == 0 {
        None
    } else if owned(e[0].0) == k {
        Some(e[0].1)
    } else {
        lookup(e.drop_first(), k)
    }
}

/// `e` without its entries whose key is `k`.
pub open spec fn drop_key(e: Seq<(String, Json)>, k: Seq<u8>) -> Seq<(String, Json)>
    decreases e.len(),
{
    if e.len() == 0 {
        seq![]
    } else if owned(e[0].0) == k {
        drop_key(e.drop_first(), k)
    } else {
        seq![e[0]] + drop_key(e.drop_first(), k)
    }
}

/// Whether the key of an entry is `k`.
pub(crate) fn key_is(entry: &(String, Json), k: &str) -> (r: bool)
    ensures
        r == (owned(entry.0) == k.spec_bytes()),
{
    crate::frontmatter::is(entry.0.as_str().as_bytes(), k)
}

/// Removes every entry whose key is `k`, and gives the value of the first.
pub fn remove_key(e: &mut Vec<(String, Json)>, k: &str) -> (r: Option<Json>)
    ensures
        r == lookup(old(e)@, k.spec_bytes()),
        final(e)@ == drop_key(old(e)@, k.spec_bytes()),
{
    let ghost all = e@;
    let ghost key = k.spec_bytes();
    let mut kept: Vec<(String, Json)> = Vec::new();
    let mut found: Option<Json> = None;
    let ghost mut i: int = 0;
    while e.len() > 0
        invariant
            0 <= i <= all.len(),
            key == k.spec_bytes(),
            e@ == all.subrange(i, all.len() as int),
            kept@ + drop_key(e@, key) == drop_key(all, key),
            match found {
                Some(v) => lookup(all, key) == Some(v),
                None => lookup(all, key) == lookup(e@, key),
            },
        decreases e@.len(),
    {
        let ghost rest = e@;
        let entry = e.remove(0);
        proof {
            assert(rest.drop_first() =~= e@);
            assert(all.subrange(i + 1, all.len() as int) =~= e@);
        }
        if key_is(&entry, k) {
            proof {
                assert(drop_key(rest, key) == drop_key(e@, key));
            }
            if found.is_none() {
                found = Some(entry.1);
            }
        } else {
            let ghost kept0 = kept@;
            kept.push(entry);
            proof {
                assert(kept0.push(rest[0]) + drop_key(e@, key) =~= kept0 + (seq![rest[0]] + drop_key(
                    e@,
                    key,
                )));
            }
        }
        proof {
            i = i + 1;
        }
    }
    proof {
        assert(kept@ + Seq::<(String, Json)>::empty() =~= kept@);
    }
    *e = kept;
    found
}

// ---------------------------------------------------------------------------
// The key tables
// ---------------------------------------------------------------------------

/// The metadata keys TMark owns at the root.
pub open spec fn root_names() -> Seq<Seq<u8>> {
    seq![
        "title".spec_bytes(),
        "subtitle".spec_bytes(),
        "authors".spec_bytes(),
        "date".spec_bytes(),
        "id".spec_bytes(),
        "lang".spec_bytes(),
        "epigraph".spec_bytes(),
    ]
}

/// The `press` keys TMark owns.
pub open spec fn press_names() -> Seq<Seq<u8>> {
    seq![
        "base_level".spec_bytes(),
        "declare".spec_bytes(),
        "sources".spec_bytes(),
        "features".spec_bytes(),
    ]
}

/// The deprecated top-level spellings, in the order they are read.
pub open spec fn moved_names() -> Seq<Seq<u8>> {
    seq![
        "bibliography".spec_bytes(),
        "crossrefs".spec_bytes(),
        "counters".spec_bytes(),
        "admonitions".spec_bytes(),
        "glossary".spec_bytes(),
        "acronyms".spec_bytes(),
    ]
}

/// The deprecated spellings of `press.callouts.style`.
pub open spec fn style_names() -> Seq<Seq<u8>> {
    seq!["callout_style".spec_bytes(), "admonition_style".spec_bytes()]
}

/// Every name the sorting reads, `press`, `callouts` and `style`
/// included.
pub open spec fn all_names() -> Seq<Seq<u8>> {
    root_names() + press_names() + moved_names() + style_names() + seq![
        "press".spec_bytes(),
        "callouts".spec_bytes(),
        "style".spec_bytes(),
    ]
}

/// The names the sorting reads are pairwise distinct.
pub proof fn lemma_names_distinct()
    ensures
        forall|i: int, j: int|
            0 <= i < j < all_names().len() ==> #[trigger] all_names()[i] != #[trigger] all_names()[j],
{
    reveal_strlit("title");
    vstd::string::is_ascii_spec_bytes("title");
    assert(vstd::string::is_ascii("title"));
    reveal_strlit("subtitle");
    vstd::string::is_ascii_spec_bytes("subtitle");
    assert(vstd::string::is_ascii("subtitle"));
    reveal_strlit("authors");
    vstd::string::is_ascii_spec_bytes("authors");
    assert(vstd::string::is_ascii("authors"));
    reveal_strlit("date");
    vstd::string::is_ascii_spec_bytes("date");
    assert(vstd::string::is_ascii("date"));
    reveal_strlit("id");
    vstd::string::is_ascii_spec_bytes("id");
    assert(vstd::string::is_ascii("id"));
    reveal_strlit("lang");
    vstd::string::is_ascii_spec_bytes("lang");
    assert(vstd::string::is_ascii("lang"));
    reveal_strlit("epigraph");
    vstd::string::is_ascii_spec_bytes("epigraph");
    assert(vstd::string::is_ascii("epigraph"));
    reveal_strlit("base_level");
    vstd::string::is_ascii_spec_bytes("base_level");
    assert(vstd::string::is_ascii("base_level"));
    reveal_strlit("declare");
    vstd::string::is_ascii_spec_bytes("declare");
    assert(vstd::string::is_ascii("declare"));
    reveal_strlit("sources");
    vstd::string::is_ascii_spec_bytes("sources");
    assert(vstd::string::is_ascii("sources"));
    reveal_strlit("features");
    vstd::string::is_ascii_spec_bytes("features");
    assert(vstd::string::is_ascii("features"));
    reveal_strlit("bibliography");
    vstd::string::is_ascii_spec_bytes("bibliography");
    assert(vstd::string::is_ascii("bibliography"));
    reveal_strlit("crossrefs");
    vstd::string::is_ascii_spec_bytes("crossrefs");
    assert(vstd::string::is_ascii("crossrefs"));
    reveal_strlit("counters");
    vstd::string::is_ascii_spec_bytes("counters");
    assert(vstd::string::is_ascii("counters"));
    reveal_strlit("admonitions");
    vstd::string::is_ascii_spec_bytes("admonitions");
    assert(vstd::string::is_ascii("admonitions"));
    reveal_strlit("glossary");
    vstd::string::is_ascii_spec_bytes("glossary");
    assert(vstd::string::is_ascii("glossary"));
    reveal_strlit("acronyms");
    vstd::string::is_ascii_spec_bytes("acronyms");
    assert(vstd::string::is_ascii("acronyms"));
    reveal_strlit("callout_style");
    vstd::string::is_ascii_spec_bytes("callout_style");
    assert(vstd::string::is_ascii("callout_style"));
    reveal_strlit("admonition_style");
    vstd::string::is_ascii_spec_bytes("admonition_style");
    assert(vstd::string::is_ascii("admonition_style"));
    reveal_strlit("press");
    vstd::string::is_ascii_spec_bytes("press");
    assert(vstd::string::is_ascii("press"));
    reveal_strlit("callouts");
    vstd::string::is_ascii_spec_bytes("callouts");
    assert(vstd::string::is_ascii("callouts"));
    reveal_strlit("style");
    vstd::string::is_ascii_spec_bytes("style");
    assert(vstd::string::is_ascii("style"));
    let n = all_names();
    assert forall|i: int, j: int| 0 <= i < j < n.len() implies n[i] != n[j] by {
        assert(n[i].len() != n[j].len() || n[i][0] != n[j][0] || n[i][1] != n[j][1]);
    }
}

// ---------------------------------------------------------------------------
// Lookups
// ---------------------------------------------------------------------------

/// Whether no two entries of `e` have the same key.
pub open spec fn distinct_keys(e: Seq<(String, Json)>) -> bool {
    forall|i: int, j: int| 0 <= i < j < e.len() ==> owned(#[trigger] e[i].0) != owned(#[trigger] e[j].0)
}

/// `e` without the entries whose key is one of `ns`.
#[verifier::opaque]
pub open spec fn drop_all(e: Seq<(String, Json)>, ns: Seq<Seq<u8>>) -> Seq<(String, Json)>
    decreases ns.len(),
{
    if ns.len() == 0 {
        e
    } else {
        drop_key(drop_all(e, ns.drop_last()), ns.last())
    }
}

/// The value of `k` in `press`, else in `root`: `press` wins.
pub open spec fn taken(press: Seq<(String, Json)>, root: Seq<(String, Json)>, k: Seq<u8>) -> Option<Json> {
    match lookup(press, k) {
        Some(v) => Some(v),
        None => lookup(root, k),
    }
}

/// Dropping a key leaves the other keys as they were, and that key
/// gone.
pub proof fn lemma_drop_key(e: Seq<(String, Json)>, k: Seq<u8>, x: Seq<u8>)
    ensures
        lookup(drop_key(e, k), x) == if x == k {
            None
        } else {
            lookup(e, x)
        },
        distinct_keys(e) ==> distinct_keys(drop_key(e, k)),
        forall|i: int| 0 <= i < drop_key(e, k).len() ==> exists|j: int| 0 <= j < e.len() && e[j] == #[trigger] drop_key(e, k)[i],
    decreases e.len(),
{
    if e.len() > 0 {
        lemma_drop_key(e.drop_first(), k, x);
        let d = drop_key(e.drop_first(), k);
        if owned(e[0].0) != k {
            let r = seq![e[0]] + d;
            assert(r.drop_first() =~= d);
            assert(r[0] == e[0]);
            assert forall|i: int| 0 <= i < r.len() implies exists|j: int| 0 <= j < e.len() && e[j] == #[trigger] r[i] by {
                if i == 0 {
                    assert(e[0] == r[0]);
                } else {
                    let j = choose|j: int| 0 <= j < e.drop_first().len() && e.drop_first()[j] == d[i - 1];
                    assert(e[j + 1] == r[i]);
                }
            }
            if distinct_keys(e) {
                assert(distinct_keys(e.drop_first())) by {
                    assert forall|i: int, j: int| 0 <= i < j < e.drop_first().len() implies owned(
                        #[trigger] e.drop_first()[i].0,
                    ) != owned(#[trigger] e.drop_first()[j].0) by {
                        assert(e.drop_first()[i] == e[i + 1]);
                        assert(e.drop_first()[j] == e[j + 1]);
                    }
                }
                assert forall|i: int, j: int| 0 <= i < j < r.len() implies owned(#[trigger] r[i].0)
                    != owned(#[trigger] r[j].0) by {
                    if i == 0 {
                        let jj = choose|jj: int| 0 <= jj < e.drop_first().len() && e.drop_first()[jj] == d[j - 1];
                        assert(e[jj + 1] == r[j]);
                    }
                }
            }
        } else {
            if distinct_keys(e) {
                assert(distinct_keys(e.drop_first())) by {
                    assert forall|i: int, j: int| 0 <= i < j < e.drop_first().len() implies owned(
                        #[trigger] e.drop_first()[i].0,
                    ) != owned(#[trigger] e.drop_first()[j].0) by {
                        assert(e.drop_first()[i] == e[i + 1]);
                        assert(e.drop_first()[j] == e[j + 1]);
                    }
                }
            }
            assert forall|i: int| 0 <= i < d.len() implies exists|j: int| 0 <= j < e.len() && e[j] == #[trigger] d[i] by {
                let j = choose|j: int| 0 <= j < e.drop_first().len() && e.drop_first()[j] == d[i];
                assert(e[j + 1] == d[i]);
            }
        }
    }
}

/// Dropping several keys.
pub proof fn lemma_drop_all(e: Seq<(String, Json)>, ns: Seq<Seq<u8>>, x: Seq<u8>)
    ensures
        lookup(drop_all(e, ns), x) == if ns.contains(x) {
            None
        } else {
            lookup(e, x)
        },
        distinct_keys(e) ==> distinct_keys(drop_all(e, ns)),
    decreases ns.len(),
{
    reveal(drop_all);
    if ns.len() > 0 {
        lemma_drop_all(e, ns.drop_last(), x);
        lemma_drop_key(drop_all(e, ns.drop_last()), ns.last(), x);
        assert(ns.contains(x) == (ns.drop_last().contains(x) || ns.last() == x)) by {
            if ns.contains(x) {
                let i = choose|i: int| 0 <= i < ns.len() && ns[i] == x;
                if i < ns.len() - 1 {
                    assert(ns.drop_last()[i] == x);
                }
            }
            if ns.drop_last().contains(x) {
                let i = choose|i: int| 0 <= i < ns.drop_last().len() && ns.drop_last()[i] == x;
                assert(ns[i] == x);
            }
        }
    }
}

/// No entry of `e` has the key `k` when looking it up finds nothing.
pub proof fn lemma_lookup_none(e: Seq<(String, Json)>, k: Seq<u8>)
    ensures
        lookup(e, k) is None <==> forall|i: int| 0 <= i < e.len() ==> owned(#[trigger] e[i].0) != k,
    decreases e.len(),
{
    if e.len() > 0 {
        lemma_lookup_none(e.drop_first(), k);
        if lookup(e, k) is None {
            assert forall|i: int| 0 <= i < e.len() implies owned(#[trigger] e[i].0) != k by {
                if i > 0 {
                    assert(e[i] == e.drop_first()[i - 1]);
                }
            }
        } else {
            if owned(e[0].0) != k {
                assert(lookup(e.drop_first(), k) is Some);
                let i = choose|i: int| 0 <= i < e.drop_first().len() && !(owned(e.drop_first()[i].0) != k);
                assert(e[i + 1] == e.drop_first()[i]);
            }
        }
    }
}

/// Looking up a key after an entry is added.
pub proof fn lemma_lookup_push(e: Seq<(String, Json)>, p: (String, Json), x: Seq<u8>)
    ensures
        lookup(e.push(p), x) == match lookup(e, x) {
            Some(v) => Some(v),
            None => if owned(p.0) == x {
                Some(p.1)
            } else {
                None
            },
        },
        distinct_keys(e) && lookup(e, owned(p.0)) is None ==> distinct_keys(e.push(p)),
    decreases e.len(),
{
    if e.len() == 0 {
        assert(e.push(p) =~= seq![p]);
        assert(seq![p].drop_first() =~= Seq::<(String, Json)>::empty());
        assert(e.push(p)[0] == p);
        assert(lookup(Seq::<(String, Json)>::empty(), x) is None);
        assert(lookup(e, x) is None);
    } else {
        assert(e.push(p).drop_first() =~= e.drop_first().push(p));
        assert(e.push(p)[0] == e[0]);
        lemma_lookup_push(e.drop_first(), p, x);
    }
    if distinct_keys(e) && lookup(e, owned(p.0)) is None {
        lemma_lookup_none(e, owned(p.0));
        let q = e.push(p);
        assert forall|i: int, j: int| 0 <= i < j < q.len() implies owned(#[trigger] q[i].0) != owned(
            #[trigger] q[j].0,
        ) by {
            if j == e.len() {
                assert(q[i] == e[i]);
            } else {
                assert(q[i] == e[i]);
                assert(q[j] == e[j]);
            }
        }
    }
}

/// The bytes of a list of names.
pub open spec fn name_bytes(ns: Seq<&str>) -> Seq<Seq<u8>> {
    ns.map_values(|s: &str| s.spec_bytes())
}

/// Takes `k` out of `press` and `root`: the value under `press` when
/// there is one, else the one at the root; the key leaves both.
pub fn take(press: &mut Vec<(String, Json)>, root: &mut Vec<(String, Json)>, k: &str) -> (r: Option<Json>)
    ensures
        r == taken(old(press)@, old(root)@, k.spec_bytes()),
        final(press)@ == drop_key(old(press)@, k.spec_bytes()),
        final(root)@ == drop_key(old(root)@, k.spec_bytes()),
{
    let from_root = remove_key(root, k);
    match remove_key(press, k) {
        Some(v) => Some(v),
        None => from_root,
    }
}

/// Takes each of `names` out of `press` and `root`, `press` winning, and
/// adds what is found to `out` under its name.
pub fn take_all(
    press: &mut Vec<(String, Json)>,
    root: &mut Vec<(String, Json)>,
    names: &[&str],
    out: &mut Vec<(String, Json)>,
)
    requires
        forall|i: int, j: int|
            0 <= i < j < names@.len() ==> (#[trigger] names@[i]).spec_bytes() != (
            #[trigger] names@[j]).spec_bytes(),
        forall|i: int| 0 <= i < names@.len() ==> lookup(old(out)@, (#[trigger] names@[i]).spec_bytes()) is None,
        distinct_keys(old(out)@),
    ensures
        final(press)@ == drop_all(old(press)@, name_bytes(names@)),
        final(root)@ == drop_all(old(root)@, name_bytes(names@)),
        distinct_keys(final(out)@),
        forall|x: Seq<u8>|
            #[trigger] lookup(final(out)@, x) == match lookup(old(out)@, x) {
                Some(v) => Some(v),
                None => if name_bytes(names@).contains(x) {
                    taken(old(press)@, old(root)@, x)
                } else {
                    None
                },
            },
{
    let ghost p0 = press@;
    let ghost r0 = root@;
    let ghost o0 = out@;
    let ghost ns = name_bytes(names@);
    proof {
        reveal(drop_all);
        assert(ns.subrange(0, 0) =~= Seq::<Seq<u8>>::empty());
    }
    let mut i: usize = 0;
    while i < names.len()
        invariant
            0 <= i <= names@.len(),
            ns == name_bytes(names@),
            forall|a: int, b: int|
                0 <= a < b < names@.len() ==> (#[trigger] names@[a]).spec_bytes() != (
                #[trigger] names@[b]).spec_bytes(),
            forall|a: int| 0 <= a < names@.len() ==> lookup(o0, (#[trigger] names@[a]).spec_bytes()) is None,
            distinct_keys(o0),
            press@ == drop_all(p0, ns.subrange(0, i as int)),
            root@ == drop_all(r0, ns.subrange(0, i as int)),
            distinct_keys(out@),
            forall|x: Seq<u8>|
                #[trigger] lookup(out@, x) == match lookup(o0, x) {
                    Some(v) => Some(v),
                    None => if ns.subrange(0, i as int).contains(x) {
                        taken(p0, r0, x)
                    } else {
                        None
                    },
                },
        decreases names@.len() - i,
    {
        let k = names[i];
        let ghost kb = k.spec_bytes();
        let ghost pre = ns.subrange(0, i as int);
        proof {
            assert(ns[i as int] == kb);
            assert(!pre.contains(kb)) by {
                if pre.contains(kb) {
                    let a = choose|a: int| 0 <= a < pre.len() && pre[a] == kb;
                    assert(names@[a].spec_bytes() == kb);
                }
            }
            lemma_drop_all(p0, pre, kb);
            lemma_drop_all(r0, pre, kb);
            assert(ns.subrange(0, i + 1) =~= pre.push(kb));
            assert(pre.push(kb).drop_last() =~= pre);
            reveal(drop_all);
        }
        let ghost out0 = out@;
        let found = take(press, root, k);
        match found {
            Some(v) => {
                let name = String::from_str(k);
                proof {
                    assert(owned(name) == kb);
                    assert(lookup(out0, kb) is None);
                }
                out.push((name, v));
                proof {
                    assert forall|x: Seq<u8>| #[trigger] lookup(out@, x) == match lookup(o0, x) {
                        Some(v) => Some(v),
                        None => if ns.subrange(0, i + 1).contains(x) {
                            taken(p0, r0, x)
                        } else {
                            None
                        },
                    } by {
                        lemma_lookup_push(out0, (name, v), x);
                        assert(pre.push(kb).contains(x) == (pre.contains(x) || x == kb)) by {
                            if pre.push(kb).contains(x) {
                                let a = choose|a: int| 0 <= a < pre.push(kb).len() && pre.push(kb)[a] == x;
                                if a < pre.len() {
                                    assert(pre[a] == x);
                                }
                            }
                            if pre.contains(x) {
                                let a = choose|a: int| 0 <= a < pre.len() && pre[a] == x;
                                assert(pre.push(kb)[a] == x);
                            }
                            if x == kb {
                                assert(pre.push(kb)[pre.len() as int] == x);
                            }
                        }
                    }
                    lemma_lookup_push(out0, (name, v), kb);
                }
            },
            None => {
                proof {
                    assert forall|x: Seq<u8>| #[trigger] lookup(out@, x) == match lookup(o0, x) {
                        Some(v) => Some(v),
                        None => if ns.subrange(0, i + 1).contains(x) {
                            taken(p0, r0, x)
                        } else {
                            None
                        },
                    } by {
                        assert(pre.push(kb).contains(x) == (pre.contains(x) || x == kb)) by {
                            if pre.push(kb).contains(x) {
                                let a = choose|a: int| 0 <= a < pre.push(kb).len() && pre.push(kb)[a] == x;
                                if a < pre.len() {
                                    assert(pre[a] == x);
                                }
                            }
                            if pre.contains(x) {
                                let a = choose|a: int| 0 <= a < pre.len() && pre[a] == x;
                                assert(pre.push(kb)[a] == x);
                            }
                            if x == kb {
                                assert(pre.push(kb)[pre.len() as int] == x);
                            }
                        }
                        if x == kb {
                            assert(lookup(o0, x) is None);
                        }
                    }
                }
            },
        }
        i += 1;
    }
    proof {
        assert(ns.subrange(0, names@.len() as int) =~= ns);
    }
}

// ---------------------------------------------------------------------------
// Moving the deprecated spellings
// ---------------------------------------------------------------------------

/// The entries of a mapping value; none for any other value or none.
pub open spec fn entries_of(o: Option<Json>) -> Seq<(String, Json)> {
    match o {
        Some(Json::Object(e)) => e@,
        _ => seq![],
    }
}

/// Whether `o` is a mapping or nothing: what a group must be for a
/// deprecated key to move into it.
pub open spec fn mapping_or_none(o: Option<Json>) -> bool {
    match o {
        None => true,
        Some(Json::Object(_)) => true,
        _ => false,
    }
}

/// The message of a group that is not a mapping.
pub open spec fn not_mapping(group: Seq<u8>) -> Seq<u8> {
    "`".spec_bytes() + group + "` must be a mapping".spec_bytes()
}

/// The error for a group that is not a mapping.
fn not_mapping_error(group: &str) -> (r: crate::frontmatter::FrontMatterError)
    ensures
        owned(r.message) == not_mapping(group.spec_bytes()),
        r.line is None,
        r.col is None,
{
    let mut v: Vec<u8> = Vec::new();
    proof {
        assert(vstd::utf8::valid_utf8(v@)) by {
            reveal_with_fuel(vstd::utf8::valid_utf8, 1);
        }
    }
    crate::diag::put(&mut v, "`");
    crate::diag::put(&mut v, group);
    crate::diag::put(&mut v, "` must be a mapping");
    crate::frontmatter::FrontMatterError::new(crate::text::string_of(v))
}

/// `e` with the entry `(k, v)` added when no entry has the key `k`.
pub open spec fn or_inserted(e: Seq<(String, Json)>, k: Seq<u8>, v: Json, x: Seq<u8>) -> Option<Json> {
    match lookup(e, x) {
        Some(w) => Some(w),
        None => if x == k {
            Some(v)
        } else {
            None
        },
    }
}

/// Adds `(k, v)` to `e` unless `e` has the key `k`.
fn insert_absent(e: &mut Vec<(String, Json)>, k: &str, v: Json)
    ensures
        forall|x: Seq<u8>| #[trigger] lookup(final(e)@, x) == or_inserted(old(e)@, k.spec_bytes(), v, x),
        distinct_keys(old(e)@) ==> distinct_keys(final(e)@),
{
    let mut i: usize = 0;
    let mut found = false;
    while i < e.len()
        invariant
            0 <= i <= e@.len(),
            found ==> lookup(e@, k.spec_bytes()) is Some,
            !found ==> forall|j: int| 0 <= j < i ==> owned(#[trigger] e@[j].0) != k.spec_bytes(),
        decreases e@.len() - i,
    {
        if key_is(&e[i], k) {
            proof {
                lemma_lookup_none(e@, k.spec_bytes());
            }
            found = true;
        }
        i += 1;
    }
    proof {
        lemma_lookup_none(e@, k.spec_bytes());
    }
    if !found {
        let ghost before = e@;
        let name = String::from_str(k);
        e.push((name, v));
        proof {
            assert forall|x: Seq<u8>| #[trigger] lookup(e@, x) == or_inserted(before, k.spec_bytes(), v, x) by {
                lemma_lookup_push(before, (name, v), x);
            }
            lemma_lookup_push(before, (name, v), k.spec_bytes());
        }
    } else {
        proof {
            assert forall|x: Seq<u8>| #[trigger] lookup(e@, x) == or_inserted(e@, k.spec_bytes(), v, x) by {
            }
        }
    }
}

/// What moving the deprecated top-level key `k` into the group `g`
/// does: `k` leaves `press` and the root; when it is set, it is recorded
/// as deprecated and its value goes into the group unless the group
/// already sets it, the group being a mapping or absent.
#[verifier::opaque]
pub open spec fn key_moved(
    press: Seq<(String, Json)>,
    root: Seq<(String, Json)>,
    k: Seq<u8>,
    g: Seq<u8>,
    pk: Seq<(String, Json)>,
    dep: Seq<String>,
    press2: Seq<(String, Json)>,
    root2: Seq<(String, Json)>,
    pk2: Seq<(String, Json)>,
    dep2: Seq<String>,
    r: Result<(), crate::frontmatter::FrontMatterError>,
) -> bool {
    &&& press2 == drop_key(press, k)
    &&& root2 == drop_key(root, k)
    &&& match taken(press, root, k) {
        None => r is Ok && pk2 == pk && dep2 == dep,
        Some(v) => {
            &&& dep2.len() == dep.len() + 1
            &&& dep2.drop_last() == dep
            &&& owned(dep2.last()) == k
            &&& if mapping_or_none(lookup(pk, g)) {
                &&& r is Ok
                &&& forall|x: Seq<u8>| x != g ==> #[trigger] lookup(pk2, x) == lookup(pk, x)
                &&& lookup(pk2, g) matches Some(Json::Object(e))
                &&& forall|x: Seq<u8>|
                    #[trigger] lookup(e@, x) == or_inserted(entries_of(lookup(pk, g)), k, v, x)
                &&& distinct_keys(pk) ==> distinct_keys(pk2)
            } else {
                r matches Err(err) && owned(err.message) == not_mapping(g) && err.line is None
                    && err.col is None
            }
        },
    }
}

/// Moves the deprecated top-level key `key` into its group under `press`:
/// when it is set, it is recorded as deprecated and its value goes into
/// the group unless the group already sets it. The group must then be a
/// mapping, or absent.
fn move_key(
    press: &mut Vec<(String, Json)>,
    root: &mut Vec<(String, Json)>,
    key: &str,
    group: &str,
    press_keys: &mut Vec<(String, Json)>,
    deprecated: &mut Vec<String>,
) -> (r: Result<(), crate::frontmatter::FrontMatterError>)
    requires
        key.spec_bytes() != group.spec_bytes(),
    ensures
        key_moved(
            old(press)@,
            old(root)@,
            key.spec_bytes(),
            group.spec_bytes(),
            old(press_keys)@,
            old(deprecated)@,
            final(press)@,
            final(root)@,
            final(press_keys)@,
            final(deprecated)@,
            r,
        ),
{
    reveal(key_moved);
    let found = take(press, root, key);
    match found {
        None => Ok(()),
        Some(v) => {
            let ghost d0 = deprecated@;
            deprecated.push(String::from_str(key));
            assert(deprecated@.drop_last() =~= d0);
            let ghost pk = press_keys@;
            let g = remove_key(press_keys, group);
            proof {
                lemma_drop_key(pk, group.spec_bytes(), group.spec_bytes());
            }
            let mut entries = match g {
                None => Vec::new(),
                Some(Json::Object(e)) => e,
                Some(other) => {
                    return Err(not_mapping_error(group));
                },
            };
            let ghost base = entries@;
            insert_absent(&mut entries, key, v);
            let ghost dropped = press_keys@;
            let ghost e = entries;
            let name = String::from_str(group);
            press_keys.push((name, Json::Object(entries)));
            proof {
                assert forall|x: Seq<u8>| x != group.spec_bytes() implies #[trigger] lookup(press_keys@, x) == lookup(pk, x) by {
                    lemma_lookup_push(dropped, (name, Json::Object(e)), x);
                    lemma_drop_key(pk, group.spec_bytes(), x);
                }
                lemma_lookup_push(dropped, (name, Json::Object(e)), group.spec_bytes());
                lemma_lookup_none(dropped, group.spec_bytes());
            }
            Ok(())
        },
    }
}

/// `press.` and a key.
fn press_dot(key: &str) -> (r: String)
    ensures
        owned(r) == "press.".spec_bytes() + key.spec_bytes(),
{
    let mut v: Vec<u8> = Vec::new();
    proof {
        assert(vstd::utf8::valid_utf8(v@)) by {
            reveal_with_fuel(vstd::utf8::valid_utf8, 1);
        }
    }
    crate::diag::put(&mut v, "press.");
    crate::diag::put(&mut v, key);
    crate::text::string_of(v)
}

/// What `callouts` becomes when a deprecated spelling of its style
/// gives `v`: a mapping gets `style: v` unless it sets a style, an absent
/// one becomes `{style: v}`, any other value stays.
pub open spec fn callouts_after(c: Option<Json>, v: Json, got: Option<Json>) -> bool {
    match c {
        None => got matches Some(Json::Object(e)) && forall|x: Seq<u8>|
            #[trigger] lookup(e@, x) == or_inserted(seq![], "style".spec_bytes(), v, x),
        Some(Json::Object(e0)) => got matches Some(Json::Object(e)) && forall|x: Seq<u8>|
            #[trigger] lookup(e@, x) == or_inserted(e0@, "style".spec_bytes(), v, x),
        Some(other) => got == Some(other),
    }
}

/// What moving the deprecated spelling `k` of `press.callouts.style`
/// does to `press`: `k` leaves it, and when it was set `callouts` gets its
/// value as `callouts_after` says.
pub open spec fn style_moved(press: Seq<(String, Json)>, k: Seq<u8>, press2: Seq<(String, Json)>) -> bool {
    match lookup(press, k) {
        None => press2 == drop_key(press, k),
        Some(v) => {
            &&& forall|x: Seq<u8>|
                x != "callouts".spec_bytes() ==> #[trigger] lookup(press2, x) == lookup(drop_key(press, k), x)
            &&& callouts_after(lookup(press, "callouts".spec_bytes()), v, lookup(press2, "callouts".spec_bytes()))
            &&& press2.len() > 0
        },
    }
}

/// Moves the deprecated spelling `key` of `press.callouts.style`: when
/// `press` sets it, it is recorded as `press.<key>` and its value goes to
/// `callouts.style` as `callouts_after` says.
fn move_style(press: &mut Vec<(String, Json)>, key: &str, deprecated: &mut Vec<String>)
    requires
        key.spec_bytes() != "callouts".spec_bytes(),
    ensures
        style_moved(old(press)@, key.spec_bytes(), final(press)@),
        match lookup(old(press)@, key.spec_bytes()) {
            None => final(deprecated)@ == old(deprecated)@,
            Some(v) => {
                &&& final(deprecated)@.len() == old(deprecated)@.len() + 1
                &&& final(deprecated)@.drop_last() == old(deprecated)@
                &&& owned(final(deprecated)@.last()) == "press.".spec_bytes() + key.spec_bytes()
            },
        },
{
    let ghost p0 = press@;
    match remove_key(press, key) {
        None => {},
        Some(v) => {
            let ghost d0 = deprecated@;
            deprecated.push(press_dot(key));
            assert(deprecated@.drop_last() =~= d0);
            let ghost p1 = press@;
            let c = remove_key(press, "callouts");
            proof {
                lemma_drop_key(p0, key.spec_bytes(), "callouts".spec_bytes());
            }
            let value = match c {
                None => {
                    let mut e: Vec<(String, Json)> = Vec::new();
                    insert_absent(&mut e, "style", v);
                    Json::Object(e)
                },
                Some(Json::Object(e0)) => {
                    let mut e = e0;
                    insert_absent(&mut e, "style", v);
                    Json::Object(e)
                },
                Some(other) => other,
            };
            let ghost p2 = press@;
            let name = String::from_str("callouts");
            let ghost val = value;
            press.push((name, value));
            proof {
                assert forall|x: Seq<u8>| x != "callouts".spec_bytes() implies #[trigger] lookup(press@, x) == lookup(p1, x) by {
                    lemma_lookup_push(p2, (name, val), x);
                    lemma_drop_key(p1, "callouts".spec_bytes(), x);
                }
                lemma_lookup_push(p2, (name, val), "callouts".spec_bytes());
                lemma_drop_key(p1, "callouts".spec_bytes(), "callouts".spec_bytes());
            }
        },
    }
}

// ---------------------------------------------------------------------------
// Sorting
// ---------------------------------------------------------------------------

/// The deprecated keys of `ns` that `press` or `root` sets, with their
/// values, in order.
pub open spec fn found(p: Seq<(String, Json)>, r: Seq<(String, Json)>, ns: Seq<Seq<u8>>) -> Seq<(Seq<u8>, Json)>
    decreases ns.len(),
{
    if ns.len() == 0 {
        seq![]
    } else {
        found(p, r, ns.drop_last()) + match taken(p, r, ns.last()) {
            Some(v) => seq![(ns.last(), v)],
            None => Seq::<(Seq<u8>, Json)>::empty(),
        }
    }
}

/// The value of the first pair of `a` whose key is `y`.
pub open spec fn first_found(a: Seq<(Seq<u8>, Json)>, y: Seq<u8>) -> Option<Json>
    decreases a.len(),
{
    if a.len() == 0 {
        None
    } else if a[0].0 == y {
        Some(a[0].1)
    } else {
        first_found(a.drop_first(), y)
    }
}

/// A group with the deprecated spellings `a` moved in: what it sets
/// itself wins.
pub open spec fn group_after(base: Seq<(String, Json)>, a: Seq<(Seq<u8>, Json)>, y: Seq<u8>) -> Option<Json> {
    match lookup(base, y) {
        Some(w) => Some(w),
        None => first_found(a, y),
    }
}

/// What the group `g` of `press` holds once the deprecated spellings
/// `ns` that belong to it are moved in: as written when none is set,
/// else a mapping of its own keys and, for each key it does not set, the
/// deprecated spelling's value.
pub open spec fn group_result(
    p: Seq<(String, Json)>,
    r: Seq<(String, Json)>,
    g: Seq<u8>,
    ns: Seq<Seq<u8>>,
    got: Option<Json>,
) -> bool {
    let a = found(p, r, ns);
    if a.len() == 0 {
        got == taken(p, r, g)
    } else {
        got matches Some(Json::Object(e)) && forall|y: Seq<u8>|
            #[trigger] lookup(e@, y) == group_after(entries_of(taken(p, r, g)), a, y)
    }
}

/// The deprecated spellings that move into `sources`.
pub open spec fn sources_moved() -> Seq<Seq<u8>> {
    moved_names().subrange(0, 2)
}

/// The deprecated spellings that move into `declare`.
pub open spec fn declare_moved() -> Seq<Seq<u8>> {
    moved_names().subrange(2, 6)
}

/// The group a deprecated spelling is moved into, when it is not a
/// mapping and a spelling moves into it: `sources` is read first.
pub open spec fn group_error(p: Seq<(String, Json)>, r: Seq<(String, Json)>) -> Option<Seq<u8>> {
    if found(p, r, sources_moved()).len() > 0 && !mapping_or_none(taken(p, r, "sources".spec_bytes())) {
        Some("sources".spec_bytes())
    } else if found(p, r, declare_moved()).len() > 0 && !mapping_or_none(
        taken(p, r, "declare".spec_bytes()),
    ) {
        Some("declare".spec_bytes())
    } else {
        None
    }
}

/// Every key TMark owns: the root metadata, the `press` keys and the
/// deprecated spellings.
pub open spec fn owned_names() -> Seq<Seq<u8>> {
    root_names() + press_names() + moved_names()
}

/// The entries of the front matter: none when it is empty, those of the
/// mapping when it is one.
pub open spec fn root_of(v: Json) -> Option<Seq<(String, Json)>> {
    match v {
        Json::Null => Some(seq![]),
        Json::Object(e) => Some(e@),
        _ => None,
    }
}

/// The entries of `press`: none when it is absent or null, those of the
/// mapping when it is one.
pub open spec fn press_of(root: Seq<(String, Json)>) -> Option<Seq<(String, Json)>> {
    match lookup(root, "press".spec_bytes()) {
        None => Some(seq![]),
        Some(Json::Null) => Some(seq![]),
        Some(Json::Object(p)) => Some(p@),
        _ => None,
    }
}

/// A date the reader took for a number, kept as the text it was.
pub open spec fn date_fixed(x: Seq<u8>, o: Option<Json>) -> Option<Json> {
    if x == "date".spec_bytes() {
        match o {
            Some(Json::Number(t)) => Some(Json::Str(t)),
            _ => o,
        }
    } else {
        o
    }
}

/// The style a deprecated spelling gives `callouts`: `callout_style`
/// first.
pub open spec fn style_of(p1: Seq<(String, Json)>) -> Option<Json> {
    match lookup(p1, "callout_style".spec_bytes()) {
        Some(v) => Some(v),
        None => lookup(p1, "admonition_style".spec_bytes()),
    }
}

/// What stays of `press` in the extra keys, `p1` being `press` without
/// the keys TMark owns: every key but the deprecated style spellings,
/// `callouts` given their style; nothing when that leaves nothing.
pub open spec fn press_rest(p1: Seq<(String, Json)>, got: Option<Json>) -> bool {
    let st = style_of(p1);
    let c = lookup(p1, "callouts".spec_bytes());
    let kept = drop_all(p1, style_names());
    if kept.len() == 0 && st is None {
        got is None
    } else {
        &&& got matches Some(Json::Object(e))
        &&& forall|y: Seq<u8>|
            y != "callouts".spec_bytes() ==> #[trigger] lookup(e@, y) == lookup(kept, y)
        &&& match st {
            None => lookup(e@, "callouts".spec_bytes()) == c,
            Some(v) => callouts_after(c, v, lookup(e@, "callouts".spec_bytes())),
        }
    }
}

/// The deprecated spellings met, as recorded: the top-level ones in
/// table order, then the style spellings under `press.`.
pub open spec fn deprecated_met(p: Seq<(String, Json)>, r: Seq<(String, Json)>) -> Seq<Seq<u8>> {
    let p1 = drop_all(p, owned_names());
    found(p, r, moved_names()).map_values(|a: (Seq<u8>, Json)| a.0) + (if lookup(
        p1,
        "callout_style".spec_bytes(),
    ) is Some {
        seq!["press.".spec_bytes() + "callout_style".spec_bytes()]
    } else {
        seq![]
    }) + (if lookup(p1, "admonition_style".spec_bytes()) is Some {
        seq!["press.".spec_bytes() + "admonition_style".spec_bytes()]
    } else {
        seq![]
    })
}

/// The front matter sorted: the keys TMark owns, the `press` keys it
/// owns, every other key, and the deprecated spellings met.
#[derive(Debug)]
pub struct Sorted {
    /// The root metadata keys: `title`, `subtitle`, `authors`, `date`,
    /// `id`, `lang`, `epigraph`.
    pub keys: Vec<(String, Json)>,
    /// The `press` keys: `base_level`, `declare`, `sources`, `features`.
    pub press: Vec<(String, Json)>,
    /// Every other key, as written; `press` holds the `press` keys TMark
    /// does not own, when there are some.
    pub extra: Vec<(String, Json)>,
    /// The deprecated spellings met.
    pub deprecated: Vec<String>,
}

/// Whether `s` is the front matter of `press` and `root` sorted.
pub open spec fn sorted_as(p: Seq<(String, Json)>, r: Seq<(String, Json)>, s: Sorted) -> bool {
    &&& distinct_keys(s.keys@)
    &&& forall|x: Seq<u8>|
        #[trigger] lookup(s.keys@, x) == if root_names().contains(x) {
            date_fixed(x, taken(p, r, x))
        } else {
            None
        }
    &&& distinct_keys(s.press@)
    &&& forall|x: Seq<u8>|
        (x == "base_level".spec_bytes() || x == "features".spec_bytes()) ==> #[trigger] lookup(
            s.press@,
            x,
        ) == taken(p, r, x)
    &&& forall|x: Seq<u8>| !press_names().contains(x) ==> #[trigger] lookup(s.press@, x) is None
    &&& group_result(p, r, "sources".spec_bytes(), sources_moved(), lookup(s.press@, "sources".spec_bytes()))
    &&& group_result(p, r, "declare".spec_bytes(), declare_moved(), lookup(s.press@, "declare".spec_bytes()))
    &&& forall|x: Seq<u8>|
        x != "press".spec_bytes() ==> #[trigger] lookup(s.extra@, x) == if owned_names().contains(x) {
            None
        } else {
            lookup(r, x)
        }
    &&& press_rest(drop_all(p, owned_names()), lookup(s.extra@, "press".spec_bytes()))
    &&& s.deprecated@.map_values(|d: String| owned(d)) == deprecated_met(p, r)
}

/// Dropping two lists of keys, one after the other.
proof fn lemma_drop_all_concat(e: Seq<(String, Json)>, a: Seq<Seq<u8>>, b: Seq<Seq<u8>>)
    ensures
        drop_all(e, a + b) == drop_all(drop_all(e, a), b),
    decreases b.len(),
{
    reveal(drop_all);
    if b.len() == 0 {
        assert(a + b =~= a);
    } else {
        assert((a + b).drop_last() =~= a + b.drop_last());
        assert((a + b).last() == b.last());
        lemma_drop_all_concat(e, a, b.drop_last());
    }
}

/// Taking from both maps once a list of keys is dropped from them.
proof fn lemma_taken_drop(p: Seq<(String, Json)>, r: Seq<(String, Json)>, ns: Seq<Seq<u8>>, x: Seq<u8>)
    ensures
        taken(drop_all(p, ns), drop_all(r, ns), x) == if ns.contains(x) {
            None
        } else {
            taken(p, r, x)
        },
{
    lemma_drop_all(p, ns, x);
    lemma_drop_all(r, ns, x);
}

/// The first pair found once one more is added.
proof fn lemma_first_found_push(a: Seq<(Seq<u8>, Json)>, q: (Seq<u8>, Json), y: Seq<u8>)
    ensures
        first_found(a.push(q), y) == match first_found(a, y) {
            Some(w) => Some(w),
            None => if q.0 == y {
                Some(q.1)
            } else {
                None
            },
        },
    decreases a.len(),
{
    if a.len() == 0 {
        assert(a.push(q) =~= seq![q]);
        assert(seq![q].drop_first() =~= Seq::<(Seq<u8>, Json)>::empty());
        assert(first_found(Seq::<(Seq<u8>, Json)>::empty(), y) is None);
    } else {
        assert(a.push(q).drop_first() =~= a.drop_first().push(q));
        assert(a.push(q)[0] == a[0]);
        lemma_first_found_push(a.drop_first(), q, y);
    }
}

/// A key of the list that is set makes what is found not empty.
proof fn lemma_found_nonempty(p: Seq<(String, Json)>, r: Seq<(String, Json)>, ns: Seq<Seq<u8>>, i: int)
    requires
        0 <= i < ns.len(),
        taken(p, r, ns[i]) is Some,
    ensures
        found(p, r, ns).len() > 0,
    decreases ns.len(),
{
    if i < ns.len() - 1 {
        assert(ns.drop_last()[i] == ns[i]);
        lemma_found_nonempty(p, r, ns.drop_last(), i);
    }
}

/// What a group holds after the deprecated spellings `a` found so far
/// are moved in.
pub open spec fn group_state(got: Option<Json>, base: Option<Json>, a: Seq<(Seq<u8>, Json)>) -> bool {
    if a.len() == 0 {
        got == base
    } else {
        got matches Some(Json::Object(e)) && forall|y: Seq<u8>|
            #[trigger] lookup(e@, y) == group_after(entries_of(base), a, y)
    }
}

/// One more spelling moved into a group.
proof fn lemma_group_step(
    got: Option<Json>,
    base: Option<Json>,
    a: Seq<(Seq<u8>, Json)>,
    k: Seq<u8>,
    v: Json,
    now: Option<Json>,
)
    requires
        group_state(got, base, a),
        mapping_or_none(got),
        now matches Some(Json::Object(e)) && forall|y: Seq<u8>|
            #[trigger] lookup(e@, y) == or_inserted(entries_of(got), k, v, y),
    ensures
        group_state(now, base, a.push((k, v))),
{
    let e = now->0->Object_0;
    assert forall|y: Seq<u8>| #[trigger] lookup(e@, y) == group_after(entries_of(base), a.push((k, v)), y) by {
        lemma_first_found_push(a, (k, v), y);
        if a.len() == 0 {
            assert(first_found(a, y) is None);
        }
    }
}

/// The first `j` names the sorting reads do not hold the name at `j`.
proof fn lemma_name_fresh(j: int)
    requires
        0 <= j < all_names().len(),
    ensures
        !all_names().subrange(0, j).contains(all_names()[j]),
{
    lemma_names_distinct();
    if all_names().subrange(0, j).contains(all_names()[j]) {
        let m = choose|m: int| 0 <= m < j && all_names().subrange(0, j)[m] == all_names()[j];
        assert(all_names()[m] == all_names()[j]);
    }
}

/// The deprecated spellings, the one at `i` with its group.
pub open spec fn group_of(i: int) -> Seq<u8> {
    if i < 2 {
        "sources".spec_bytes()
    } else {
        "declare".spec_bytes()
    }
}

/// The first `i` deprecated spellings, `i` up to `k`, that move into
/// the group of the one at `k`.
pub open spec fn group_prefix(i: int, k: int) -> Seq<Seq<u8>> {
    if k < 2 {
        moved_names().subrange(0, if i < 2 {
            i
        } else {
            2
        })
    } else {
        moved_names().subrange(2, if i < 2 {
            2
        } else {
            i
        })
    }
}

/// `press` and the root once the first `i` deprecated spellings are
/// taken out.
#[verifier::opaque]
pub open spec fn ms_maps(
    p: Seq<(String, Json)>,
    r: Seq<(String, Json)>,
    i: int,
    press: Seq<(String, Json)>,
    root: Seq<(String, Json)>,
) -> bool {
    &&& press == drop_all(p, root_names() + press_names() + moved_names().subrange(0, i))
    &&& root == drop_all(r, root_names() + press_names() + moved_names().subrange(0, i))
}

/// The spellings recorded once the first `i` are moved.
#[verifier::opaque]
pub open spec fn ms_dep(p: Seq<(String, Json)>, r: Seq<(String, Json)>, i: int, dep: Seq<String>) -> bool {
    dep.map_values(|d: String| owned(d)) == found(p, r, moved_names().subrange(0, i)).map_values(
        |a: (Seq<u8>, Json)| a.0,
    )
}

/// The `press` keys other than the two groups, as they were.
#[verifier::opaque]
pub open spec fn ms_keys(pk0: Seq<(String, Json)>, pk: Seq<(String, Json)>) -> bool {
    &&& distinct_keys(pk)
    &&& forall|x: Seq<u8>|
        x != "sources".spec_bytes() && x != "declare".spec_bytes() ==> #[trigger] lookup(pk, x)
            == lookup(pk0, x)
}

/// The group of the spelling at `g0` once the first `i` are moved.
#[verifier::opaque]
pub open spec fn ms_group(p: Seq<(String, Json)>, r: Seq<(String, Json)>, i: int, pk: Seq<(String, Json)>, g0: int) -> bool {
    &&& group_state(
        lookup(pk, group_of(g0)),
        taken(p, r, group_of(g0)),
        found(p, r, group_prefix(i, g0)),
    )
    &&& found(p, r, group_prefix(i, g0)).len() > 0 ==> mapping_or_none(taken(p, r, group_of(g0)))
}

/// The state after the first `i` deprecated spellings are moved.
pub open spec fn moved_state(
    p: Seq<(String, Json)>,
    r: Seq<(String, Json)>,
    pk0: Seq<(String, Json)>,
    i: int,
    press: Seq<(String, Json)>,
    root: Seq<(String, Json)>,
    pk: Seq<(String, Json)>,
    dep: Seq<String>,
) -> bool {
    &&& ms_maps(p, r, i, press, root)
    &&& ms_dep(p, r, i, dep)
    &&& ms_keys(pk0, pk)
    &&& ms_group(p, r, i, pk, 0)
    &&& ms_group(p, r, i, pk, 2)
}

/// The spelling at `i` is none of the keys taken before it, nor its
/// group.
proof fn lemma_move_fresh(p: Seq<(String, Json)>, r: Seq<(String, Json)>, i: int)
    requires
        0 <= i < 6,
    ensures
        taken(
            drop_all(p, root_names() + press_names() + moved_names().subrange(0, i)),
            drop_all(r, root_names() + press_names() + moved_names().subrange(0, i)),
            moved_names()[i],
        ) == taken(p, r, moved_names()[i]),
        moved_names()[i] != group_of(i),
        moved_names()[i] != "sources".spec_bytes(),
        moved_names()[i] != "declare".spec_bytes(),
{
    let pre = root_names() + press_names() + moved_names().subrange(0, i);
    assert(pre =~= all_names().subrange(0, 11 + i));
    assert(moved_names()[i] == all_names()[11 + i]);
    lemma_name_fresh(11 + i);
    lemma_taken_drop(p, r, pre, moved_names()[i]);
    lemma_names_distinct();
    assert(all_names()[9] == "sources".spec_bytes());
    assert(all_names()[8] == "declare".spec_bytes());
}

/// A spelling is not its own group.
proof fn lemma_key_not_group(i: int)
    requires
        0 <= i < 6,
    ensures
        moved_names()[i] != group_of(i),
{
    lemma_names_distinct();
    assert(moved_names()[i] == all_names()[11 + i]);
    assert(all_names()[9] == "sources".spec_bytes());
    assert(all_names()[8] == "declare".spec_bytes());
}

/// A group that is not a mapping when a spelling moves into it is the
/// group the sorting reports.
proof fn lemma_move_err(
    p: Seq<(String, Json)>,
    r: Seq<(String, Json)>,
    pk0: Seq<(String, Json)>,
    i: int,
    press: Seq<(String, Json)>,
    root: Seq<(String, Json)>,
    pk: Seq<(String, Json)>,
    dep: Seq<String>,
    press2: Seq<(String, Json)>,
    root2: Seq<(String, Json)>,
    pk2: Seq<(String, Json)>,
    dep2: Seq<String>,
    res: Result<(), crate::frontmatter::FrontMatterError>,
)
    requires
        0 <= i < 6,
        moved_state(p, r, pk0, i, press, root, pk, dep),
        key_moved(press, root, moved_names()[i], group_of(i), pk, dep, press2, root2, pk2, dep2, res),
        res is Err,
    ensures
        group_error(p, r) == Some(group_of(i)),
        res matches Err(e) && owned(e.message) == not_mapping(group_of(i)) && e.line is None
            && e.col is None,
{
    lemma_move_fresh(p, r, i);
    assert(taken(press, root, moved_names()[i]) == taken(p, r, moved_names()[i])) by {
        reveal(ms_maps);
    }
    reveal(key_moved);
    reveal(ms_group);
    assert(group_of(0) == "sources".spec_bytes());
    assert(group_of(2) == "declare".spec_bytes());
    if i < 2 {
        assert(sources_moved()[i] == moved_names()[i]);
        lemma_found_nonempty(p, r, sources_moved(), i);
    } else {
        assert(group_prefix(i, 0) =~= sources_moved());
        assert(declare_moved()[i - 2] == moved_names()[i]);
        lemma_found_nonempty(p, r, declare_moved(), i - 2);
    }
}

/// The names taken once the spelling at `i` is.
proof fn lemma_move_names(i: int)
    requires
        0 <= i < 6,
    ensures
        (root_names() + press_names() + moved_names().subrange(0, i)).push(moved_names()[i])
            == root_names() + press_names() + moved_names().subrange(0, i + 1),
        moved_names().subrange(0, i + 1).drop_last() == moved_names().subrange(0, i),
        moved_names().subrange(0, i + 1).last() == moved_names()[i],
        group_prefix(i + 1, if i < 2 { 0 } else { 2 }).drop_last() == group_prefix(i, if i < 2 { 0 } else { 2 }),
        group_prefix(i + 1, if i < 2 { 0 } else { 2 }).last() == moved_names()[i],
        group_prefix(i + 1, if i < 2 { 2 } else { 0 }) == group_prefix(i, if i < 2 { 2 } else { 0 }),
{
    let pre = root_names() + press_names() + moved_names().subrange(0, i);
    assert(pre.push(moved_names()[i]) =~= root_names() + press_names() + moved_names().subrange(0, i + 1));
    assert(moved_names().subrange(0, i + 1).drop_last() =~= moved_names().subrange(0, i));
    let g0 = if i < 2 { 0int } else { 2int };
    assert(group_prefix(i + 1, g0).drop_last() =~= group_prefix(i, g0));
    assert(group_prefix(i + 1, 2 - g0) =~= group_prefix(i, 2 - g0));
}

/// The maps once the spelling at `i` is taken out of them.
proof fn lemma_move_maps(e: Seq<(String, Json)>, e1: Seq<(String, Json)>, e2: Seq<(String, Json)>, i: int)
    requires
        0 <= i < 6,
        e1 == drop_all(e, root_names() + press_names() + moved_names().subrange(0, i)),
        e2 == drop_key(e1, moved_names()[i]),
    ensures
        e2 == drop_all(e, root_names() + press_names() + moved_names().subrange(0, i + 1)),
{
    reveal(drop_all);
    lemma_move_names(i);
    let pre = root_names() + press_names() + moved_names().subrange(0, i);
    assert(pre.push(moved_names()[i]).drop_last() =~= pre);
}

/// The deprecated spellings recorded once the one at `i` is moved.
proof fn lemma_move_dep(
    p: Seq<(String, Json)>,
    r: Seq<(String, Json)>,
    i: int,
    dep: Seq<String>,
    dep2: Seq<String>,
)
    requires
        0 <= i < 6,
        dep.map_values(|d: String| owned(d)) == found(p, r, moved_names().subrange(0, i)).map_values(
            |a: (Seq<u8>, Json)| a.0,
        ),
        taken(p, r, moved_names()[i]) is None ==> dep2 == dep,
        taken(p, r, moved_names()[i]) is Some ==> dep2.len() == dep.len() + 1 && dep2.drop_last()
            == dep && owned(dep2.last()) == moved_names()[i],
    ensures
        dep2.map_values(|d: String| owned(d)) == found(p, r, moved_names().subrange(0, i + 1)).map_values(
            |a: (Seq<u8>, Json)| a.0,
        ),
{
    lemma_move_names(i);
    let mv = moved_names();
    let kb = mv[i];
    match taken(p, r, kb) {
        None => {
            assert(found(p, r, mv.subrange(0, i + 1)) =~= found(p, r, mv.subrange(0, i)));
        },
        Some(v) => {
            assert(found(p, r, mv.subrange(0, i + 1)) =~= found(p, r, mv.subrange(0, i)).push((kb, v)));
            assert(dep2 =~= dep.push(dep2.last()));
            assert(dep2.map_values(|d: String| owned(d)) =~= dep.map_values(|d: String| owned(d)).push(kb));
            assert(found(p, r, mv.subrange(0, i)).push((kb, v)).map_values(|a: (Seq<u8>, Json)| a.0)
                =~= found(p, r, mv.subrange(0, i)).map_values(|a: (Seq<u8>, Json)| a.0).push(kb));
        },
    }
}

/// The group of the spelling at `i` once it is moved.
proof fn lemma_move_group(
    p: Seq<(String, Json)>,
    r: Seq<(String, Json)>,
    i: int,
    got: Option<Json>,
    now: Option<Json>,
    pk: Seq<(String, Json)>,
    pk2: Seq<(String, Json)>,
)
    requires
        0 <= i < 6,
        got == lookup(pk, group_of(i)),
        now == lookup(pk2, group_of(i)),
        group_state(got, taken(p, r, group_of(i)), found(p, r, group_prefix(i, if i < 2 { 0 } else { 2 }))),
        found(p, r, group_prefix(i, if i < 2 { 0 } else { 2 })).len() > 0 ==> mapping_or_none(taken(p, r, group_of(i))),
        taken(p, r, moved_names()[i]) is None ==> pk2 == pk,
        taken(p, r, moved_names()[i]) matches Some(v) ==> mapping_or_none(got) && (now matches Some(
            Json::Object(e),
        ) && forall|x: Seq<u8>|
            #[trigger] lookup(e@, x) == or_inserted(entries_of(got), moved_names()[i], v, x)),
    ensures
        group_state(now, taken(p, r, group_of(i)), found(p, r, group_prefix(i + 1, if i < 2 { 0 } else { 2 }))),
        found(p, r, group_prefix(i + 1, if i < 2 { 0 } else { 2 })).len() > 0 ==> mapping_or_none(taken(p, r, group_of(i))),
{
    lemma_move_names(i);
    let g0 = if i < 2 { 0int } else { 2int };
    let a = found(p, r, group_prefix(i, g0));
    let kb = moved_names()[i];
    match taken(p, r, kb) {
        None => {
            assert(found(p, r, group_prefix(i + 1, g0)) =~= a);
        },
        Some(v) => {
            assert(found(p, r, group_prefix(i + 1, g0)) =~= a.push((kb, v)));
            lemma_group_step(got, taken(p, r, group_of(i)), a, kb, v, now);
        },
    }
}

/// Moving the spelling at `i` leads to the state after it.
proof fn lemma_move_ok(
    p: Seq<(String, Json)>,
    r: Seq<(String, Json)>,
    pk0: Seq<(String, Json)>,
    i: int,
    press: Seq<(String, Json)>,
    root: Seq<(String, Json)>,
    pk: Seq<(String, Json)>,
    dep: Seq<String>,
    press2: Seq<(String, Json)>,
    root2: Seq<(String, Json)>,
    pk2: Seq<(String, Json)>,
    dep2: Seq<String>,
    res: Result<(), crate::frontmatter::FrontMatterError>,
)
    requires
        0 <= i < 6,
        moved_state(p, r, pk0, i, press, root, pk, dep),
        key_moved(press, root, moved_names()[i], group_of(i), pk, dep, press2, root2, pk2, dep2, res),
        res is Ok,
    ensures
        moved_state(p, r, pk0, i + 1, press2, root2, pk2, dep2),
{
    let kb = moved_names()[i];
    let gb = group_of(i);
    let g0 = if i < 2 {
        0int
    } else {
        2int
    };
    let other = 2 - g0;
    lemma_move_fresh(p, r, i);
    lemma_move_names(i);
    assert(taken(press, root, kb) == taken(p, r, kb)) by {
        reveal(ms_maps);
    }
    assert(press2 == drop_key(press, kb) && root2 == drop_key(root, kb)) by {
        reveal(key_moved);
    }
    assert(ms_maps(p, r, i + 1, press2, root2)) by {
        reveal(ms_maps);
        lemma_move_maps(p, press, press2, i);
        lemma_move_maps(r, root, root2, i);
    }
    assert(ms_dep(p, r, i + 1, dep2)) by {
        reveal(ms_dep);
        reveal(key_moved);
        lemma_move_dep(p, r, i, dep, dep2);
    }
    assert(forall|x: Seq<u8>| x != gb ==> #[trigger] lookup(pk2, x) == lookup(pk, x)) by {
        reveal(key_moved);
    }
    assert(distinct_keys(pk) ==> distinct_keys(pk2)) by {
        reveal(key_moved);
    }
    assert(gb == group_of(g0));
    assert(group_of(other) != gb) by {
        lemma_names_distinct();
        assert(all_names()[9] == "sources".spec_bytes());
        assert(all_names()[8] == "declare".spec_bytes());
    }
    assert(ms_keys(pk0, pk2)) by {
        reveal(ms_keys);
    }
    assert(ms_group(p, r, i + 1, pk2, g0)) by {
        reveal(ms_group);
        reveal(key_moved);
        lemma_move_group(p, r, i, lookup(pk, gb), lookup(pk2, gb), pk, pk2);
    }
    assert(ms_group(p, r, i + 1, pk2, other)) by {
        reveal(ms_group);
        assert(lookup(pk2, group_of(other)) == lookup(pk, group_of(other)));
    }
}

/// Moves the deprecated spelling at `i`.
fn move_one(
    press: &mut Vec<(String, Json)>,
    root: &mut Vec<(String, Json)>,
    press_keys: &mut Vec<(String, Json)>,
    deprecated: &mut Vec<String>,
    key: &str,
    group: &str,
    Ghost(p): Ghost<Seq<(String, Json)>>,
    Ghost(r): Ghost<Seq<(String, Json)>>,
    Ghost(pk0): Ghost<Seq<(String, Json)>>,
    Ghost(i): Ghost<int>,
) -> (res: Result<(), crate::frontmatter::FrontMatterError>)
    requires
        0 <= i < 6,
        key.spec_bytes() == moved_names()[i],
        group.spec_bytes() == group_of(i),
        moved_state(p, r, pk0, i, old(press)@, old(root)@, old(press_keys)@, old(deprecated)@),
    ensures
        match res {
            Ok(()) => moved_state(p, r, pk0, i + 1, final(press)@, final(root)@, final(press_keys)@, final(deprecated)@),
            Err(e) => group_error(p, r) == Some(group_of(i)) && owned(e.message) == not_mapping(group_of(i))
                && e.line is None && e.col is None,
        },
{
    let ghost press0 = press@;
    let ghost root0 = root@;
    let ghost pk1 = press_keys@;
    let ghost dep1 = deprecated@;
    proof {
        lemma_key_not_group(i);
    }
    let res = move_key(press, root, key, group, press_keys, deprecated);
    proof {
        if res is Err {
            lemma_move_err(p, r, pk0, i, press0, root0, pk1, dep1, press@, root@, press_keys@, deprecated@, res);
        } else {
            lemma_move_ok(p, r, pk0, i, press0, root0, pk1, dep1, press@, root@, press_keys@, deprecated@, res);
        }
    }
    res
}

/// Moves every deprecated top-level spelling into its group, in table
/// order, `p` and `r` being `press` and the root as written.
fn move_all(
    press: &mut Vec<(String, Json)>,
    root: &mut Vec<(String, Json)>,
    press_keys: &mut Vec<(String, Json)>,
    deprecated: &mut Vec<String>,
    Ghost(p): Ghost<Seq<(String, Json)>>,
    Ghost(r): Ghost<Seq<(String, Json)>>,
) -> (res: Result<(), crate::frontmatter::FrontMatterError>)
    requires
        old(press)@ == drop_all(p, root_names() + press_names()),
        old(root)@ == drop_all(r, root_names() + press_names()),
        old(deprecated)@.len() == 0,
        distinct_keys(old(press_keys)@),
        forall|x: Seq<u8>|
            #[trigger] lookup(old(press_keys)@, x) == if press_names().contains(x) {
                taken(p, r, x)
            } else {
                None
            },
    ensures
        match group_error(p, r) {
            Some(g) => res matches Err(e) && owned(e.message) == not_mapping(g) && e.line is None
                && e.col is None,
            None => {
                &&& res is Ok
                &&& final(press)@ == drop_all(p, owned_names())
                &&& final(root)@ == drop_all(r, owned_names())
                &&& final(deprecated)@.map_values(|d: String| owned(d)) == found(
                    p,
                    r,
                    moved_names(),
                ).map_values(|a: (Seq<u8>, Json)| a.0)
                &&& distinct_keys(final(press_keys)@)
                &&& forall|x: Seq<u8>|
                    x != "sources".spec_bytes() && x != "declare".spec_bytes() ==> #[trigger] lookup(
                        final(press_keys)@,
                        x,
                    ) == lookup(old(press_keys)@, x)
                &&& group_result(p, r, "sources".spec_bytes(), sources_moved(), lookup(final(press_keys)@, "sources".spec_bytes()))
                &&& group_result(p, r, "declare".spec_bytes(), declare_moved(), lookup(final(press_keys)@, "declare".spec_bytes()))
            },
        },
{
    let moves: [(&str, &str); 6] = [
        ("bibliography", "sources"),
        ("crossrefs", "sources"),
        ("counters", "declare"),
        ("admonitions", "declare"),
        ("glossary", "declare"),
        ("acronyms", "declare"),
    ];
    let ghost pk0 = press_keys@;
    proof {
        assert(forall|j: int| 0 <= j < 6 ==> (#[trigger] moves@[j]).0.spec_bytes() == moved_names()[j]
            && moves@[j].1.spec_bytes() == group_of(j));
        assert(root_names() + press_names() + moved_names().subrange(0, 0) =~= root_names() + press_names());
        assert(press_names()[2] == "sources".spec_bytes());
        assert(press_names()[1] == "declare".spec_bytes());
        assert(group_prefix(0, 0) =~= Seq::<Seq<u8>>::empty());
        assert(group_prefix(0, 2) =~= Seq::<Seq<u8>>::empty());
        assert(found(p, r, moved_names().subrange(0, 0)) =~= Seq::<(Seq<u8>, Json)>::empty());
        assert(found(p, r, group_prefix(0, 0)) =~= Seq::<(Seq<u8>, Json)>::empty());
        assert(found(p, r, group_prefix(0, 2)) =~= Seq::<(Seq<u8>, Json)>::empty());
        assert(deprecated@.map_values(|d: String| owned(d)) =~= Seq::<Seq<u8>>::empty());
        assert(found(p, r, moved_names().subrange(0, 0)).map_values(|a: (Seq<u8>, Json)| a.0) =~= Seq::<Seq<u8>>::empty());
        assert(group_of(0) == "sources".spec_bytes());
        assert(group_of(2) == "declare".spec_bytes());
        reveal(ms_maps);
        reveal(ms_dep);
        reveal(ms_keys);
        reveal(ms_group);
    }
    let mut i: usize = 0;
    while i < 6
        invariant
            0 <= i <= 6,
            forall|j: int| 0 <= j < 6 ==> (#[trigger] moves@[j]).0.spec_bytes() == moved_names()[j]
                && moves@[j].1.spec_bytes() == group_of(j),
            moved_state(p, r, pk0, i as int, press@, root@, press_keys@, deprecated@),
        decreases 6 - i,
    {
        let (key, group) = moves[i];
        match move_one(press, root, press_keys, deprecated, key, group, Ghost(p), Ghost(r), Ghost(pk0), Ghost(i as int)) {
            Err(e) => {
                return Err(e);
            },
            Ok(()) => {},
        }
        i += 1;
    }
    proof {
        reveal(ms_maps);
        reveal(ms_dep);
        reveal(ms_keys);
        reveal(ms_group);
        assert(group_of(0) == "sources".spec_bytes());
        assert(group_of(2) == "declare".spec_bytes());
        assert(moved_names().subrange(0, 6) =~= moved_names());
        assert(group_prefix(6, 0) =~= sources_moved());
        assert(group_prefix(6, 2) =~= declare_moved());
        assert(root_names() + press_names() + moved_names() =~= owned_names());
    }
    Ok(())
}

/// The value of the key `k` once a date the reader took for a number
/// is written back as the text it was.
pub open spec fn date_value(k: Seq<u8>, v: Json) -> Json {
    if k == "date".spec_bytes() {
        match v {
            Json::Number(t) => Json::Str(t),
            _ => v,
        }
    } else {
        v
    }
}

/// A date the reader took for a number is written back as the text it
/// was.
fn fix_date(keys: &mut Vec<(String, Json)>)
    ensures
        forall|x: Seq<u8>| #[trigger] lookup(final(keys)@, x) == date_fixed(x, lookup(old(keys)@, x)),
        distinct_keys(old(keys)@) ==> distinct_keys(final(keys)@),
{
    let ghost k0 = keys@;
    let mut out: Vec<(String, Json)> = Vec::new();
    let ghost mut i: int = 0;
    while keys.len() > 0
        invariant
            0 <= i <= k0.len(),
            keys@ == k0.subrange(i, k0.len() as int),
            out@.len() == i,
            forall|j: int| 0 <= j < i ==> owned(#[trigger] out@[j].0) == owned(k0[j].0),
            forall|j: int| 0 <= j < i ==> (#[trigger] out@[j]).1 == date_value(owned(k0[j].0), k0[j].1),
        decreases keys@.len(),
    {
        let ghost rest = keys@;
        let entry = keys.remove(0);
        proof {
            assert(rest.drop_first() =~= keys@);
            assert(k0.subrange(i + 1, k0.len() as int) =~= keys@);
            assert(entry == k0[i]);
        }
        let is_date = key_is(&entry, "date");
        let (name, value) = entry;
        let value = match value {
            Json::Number(t) => {
                if is_date {
                    Json::Str(t)
                } else {
                    Json::Number(t)
                }
            },
            other => other,
        };
        out.push((name, value));
        proof {
            i = i + 1;
        }
    }
    proof {
        assert forall|x: Seq<u8>| #[trigger] lookup(out@, x) == date_fixed(x, lookup(k0, x)) by {
            lemma_fix_lookup(out@, k0, x);
        }
        if distinct_keys(k0) {
            assert forall|a: int, b: int| 0 <= a < b < out@.len() implies owned(#[trigger] out@[a].0) != owned(#[trigger] out@[b].0) by {
                assert(owned(out@[a].0) == owned(k0[a].0));
                assert(owned(out@[b].0) == owned(k0[b].0));
            }
        }
    }
    *keys = out;
}

/// Looking up a list whose dates were written back.
proof fn lemma_fix_lookup(out: Seq<(String, Json)>, k0: Seq<(String, Json)>, x: Seq<u8>)
    requires
        out.len() == k0.len(),
        forall|j: int| 0 <= j < out.len() ==> owned(#[trigger] out[j].0) == owned(k0[j].0),
        forall|j: int| 0 <= j < out.len() ==> (#[trigger] out[j]).1 == date_value(owned(k0[j].0), k0[j].1),
    ensures
        lookup(out, x) == date_fixed(x, lookup(k0, x)),
    decreases out.len(),
{
    if out.len() > 0 {
        let o2 = out.drop_first();
        let k2 = k0.drop_first();
        assert(owned(out[0].0) == owned(k0[0].0));
        assert(out[0].1 == date_value(owned(k0[0].0), k0[0].1));
        assert forall|j: int| 0 <= j < o2.len() implies owned(#[trigger] o2[j].0) == owned(k2[j].0) by {
            assert(o2[j] == out[j + 1]);
            assert(k2[j] == k0[j + 1]);
        }
        assert forall|j: int| 0 <= j < o2.len() implies (#[trigger] o2[j]).1 == date_value(owned(k2[j].0), k2[j].1) by {
            assert(o2[j] == out[j + 1]);
            assert(k2[j] == k0[j + 1]);
        }
        lemma_fix_lookup(o2, k2, x);
    }
}

/// A second style spelling changes nothing once the first gave
/// `callouts` its style.
proof fn lemma_callouts_twice(c: Option<Json>, v1: Json, c1: Option<Json>, v2: Json, c2: Option<Json>)
    requires
        callouts_after(c, v1, c1),
        callouts_after(c1, v2, c2),
    ensures
        callouts_after(c, v1, c2),
{
    let st = "style".spec_bytes();
    match c {
        Some(Json::Object(e0)) => {
            let e1 = c1->0->Object_0;
            let e2 = c2->0->Object_0;
            assert(lookup(e1@, st) is Some);
            assert forall|x: Seq<u8>| #[trigger] lookup(e2@, x) == lookup(e1@, x) by {
                assert(lookup(e2@, x) == or_inserted(e1@, st, v2, x));
            }
        },
        None => {
            let e1 = c1->0->Object_0;
            let e2 = c2->0->Object_0;
            assert(lookup(e1@, st) == or_inserted(seq![], st, v1, st));
            assert(lookup(Seq::<(String, Json)>::empty(), st) is None);
            assert forall|x: Seq<u8>| #[trigger] lookup(e2@, x) == lookup(e1@, x) by {
                assert(lookup(e2@, x) == or_inserted(e1@, st, v2, x));
            }
        },
        Some(other) => {},
    }
}

/// Something is found in a list only when it is not empty.
proof fn lemma_lookup_nonempty(e: Seq<(String, Json)>, k: Seq<u8>)
    requires
        lookup(e, k) is Some,
    ensures
        e.len() > 0,
{
}

/// The style spellings and `callouts` are three different keys.
proof fn lemma_style_keys()
    ensures
        "callout_style".spec_bytes() != "admonition_style".spec_bytes(),
        "callout_style".spec_bytes() != "callouts".spec_bytes(),
        "admonition_style".spec_bytes() != "callouts".spec_bytes(),
{
    lemma_names_distinct();
    assert(all_names()[17] == "callout_style".spec_bytes());
    assert(all_names()[18] == "admonition_style".spec_bytes());
    assert(all_names()[20] == "callouts".spec_bytes());
}

/// `press` without the style spellings.
proof fn lemma_style_kept(p1: Seq<(String, Json)>)
    ensures
        drop_all(p1, style_names()) == drop_key(
            drop_key(p1, "callout_style".spec_bytes()),
            "admonition_style".spec_bytes(),
        ),
{
    reveal(drop_all);
    let cs = "callout_style".spec_bytes();
    assert(style_names().drop_last() =~= seq![cs]);
    assert(seq![cs].drop_last() =~= Seq::<Seq<u8>>::empty());
    assert(drop_all(p1, Seq::<Seq<u8>>::empty()) == p1);
    assert(drop_all(p1, seq![cs]) == drop_key(p1, cs));
}

/// The two style spellings moved, one after the other.
proof fn lemma_styles(p1: Seq<(String, Json)>, p4: Seq<(String, Json)>, p5: Seq<(String, Json)>)
    requires
        style_moved(p1, "callout_style".spec_bytes(), p4),
        style_moved(p4, "admonition_style".spec_bytes(), p5),
    ensures
        lookup(p4, "admonition_style".spec_bytes()) == lookup(p1, "admonition_style".spec_bytes()),
        (p5.len() == 0) == (drop_all(p1, style_names()).len() == 0 && style_of(p1) is None),
        p5.len() > 0 ==> forall|y: Seq<u8>|
            y != "callouts".spec_bytes() ==> #[trigger] lookup(p5, y) == lookup(drop_all(p1, style_names()), y),
        p5.len() > 0 ==> match style_of(p1) {
            None => lookup(p5, "callouts".spec_bytes()) == lookup(p1, "callouts".spec_bytes()),
            Some(v) => callouts_after(
                lookup(p1, "callouts".spec_bytes()),
                v,
                lookup(p5, "callouts".spec_bytes()),
            ),
        },
{
    let cs = "callout_style".spec_bytes();
    let as_ = "admonition_style".spec_bytes();
    let co = "callouts".spec_bytes();
    lemma_style_keys();
    lemma_style_kept(p1);
    let kept = drop_key(drop_key(p1, cs), as_);
    lemma_drop_key(p1, cs, as_);
    lemma_drop_key(p1, cs, co);
    assert(lookup(p4, as_) == lookup(p1, as_));
    assert(lookup(drop_key(p1, cs), co) == lookup(p1, co));
    assert forall|y: Seq<u8>| y != co implies #[trigger] lookup(drop_key(p4, as_), y) == lookup(kept, y) by {
        lemma_drop_key(p4, as_, y);
        lemma_drop_key(drop_key(p1, cs), as_, y);
        lemma_drop_key(p1, cs, y);
    }
    lemma_drop_key(p4, as_, co);
    match lookup(p1, cs) {
        None => {
            match lookup(p1, as_) {
                None => {},
                Some(v2) => {
                    assert(lookup(p4, co) == lookup(p1, co));
                },
            }
        },
        Some(v1) => {
            assert(lookup(p4, co) is Some);
            match lookup(p1, as_) {
                None => {
                    lemma_lookup_nonempty(p5, co);
                },
                Some(v2) => {
                    lemma_callouts_twice(lookup(p1, co), v1, lookup(p4, co), v2, lookup(p5, co));
                },
            }
        },
    }
}

/// What the sorting needs of its key tables.
proof fn lemma_tables()
    ensures
        forall|i: int, j: int| 0 <= i < j < 7 ==> #[trigger] root_names()[i] != #[trigger] root_names()[j],
        forall|i: int, j: int| 0 <= i < j < 4 ==> #[trigger] press_names()[i] != #[trigger] press_names()[j],
        forall|x: Seq<u8>| press_names().contains(x) ==> !root_names().contains(x),
{
    lemma_names_distinct();
    assert forall|i: int, j: int| 0 <= i < j < 7 implies #[trigger] root_names()[i] != #[trigger] root_names()[j] by {
        assert(root_names()[i] == all_names()[i]);
        assert(root_names()[j] == all_names()[j]);
    }
    assert forall|i: int, j: int| 0 <= i < j < 4 implies #[trigger] press_names()[i] != #[trigger] press_names()[j] by {
        assert(press_names()[i] == all_names()[7 + i]);
        assert(press_names()[j] == all_names()[7 + j]);
    }
    assert forall|x: Seq<u8>| press_names().contains(x) implies !root_names().contains(x) by {
        let i = choose|i: int| 0 <= i < press_names().len() && press_names()[i] == x;
        if root_names().contains(x) {
            let j = choose|j: int| 0 <= j < root_names().len() && root_names()[j] == x;
            assert(press_names()[i] == all_names()[7 + i]);
            assert(root_names()[j] == all_names()[j]);
        }
    }
}

/// The message of a front matter that is not a mapping.
pub open spec fn not_a_mapping() -> Seq<u8> {
    "front matter must be a YAML mapping".spec_bytes()
}

/// The message of a `press` that is not a mapping.
pub open spec fn press_not_a_mapping() -> Seq<u8> {
    "`press` must be a mapping".spec_bytes()
}

/// What taking the keys TMark owns out of `press` and the root gives.
#[verifier::opaque]
pub open spec fn owned_taken(
    p: Seq<(String, Json)>,
    r: Seq<(String, Json)>,
    keys: Seq<(String, Json)>,
    pk: Seq<(String, Json)>,
    dep: Seq<String>,
    press: Seq<(String, Json)>,
    root: Seq<(String, Json)>,
) -> bool {
    &&& distinct_keys(keys)
    &&& forall|x: Seq<u8>|
        #[trigger] lookup(keys, x) == if root_names().contains(x) {
            taken(p, r, x)
        } else {
            None
        }
    &&& distinct_keys(pk)
    &&& forall|x: Seq<u8>|
        (x == "base_level".spec_bytes() || x == "features".spec_bytes()) ==> #[trigger] lookup(pk, x)
            == taken(p, r, x)
    &&& forall|x: Seq<u8>| !press_names().contains(x) ==> #[trigger] lookup(pk, x) is None
    &&& group_result(p, r, "sources".spec_bytes(), sources_moved(), lookup(pk, "sources".spec_bytes()))
    &&& group_result(p, r, "declare".spec_bytes(), declare_moved(), lookup(pk, "declare".spec_bytes()))
    &&& dep.map_values(|d: String| owned(d)) == found(p, r, moved_names()).map_values(
        |a: (Seq<u8>, Json)| a.0,
    )
    &&& press == drop_all(p, owned_names())
    &&& root == drop_all(r, owned_names())
}

/// Takes every key TMark owns out of `press` and the root: the root
/// metadata, the `press` keys with the deprecated spellings moved into
/// their groups, and the deprecated spellings met.
fn take_owned(
    press: &mut Vec<(String, Json)>,
    root: &mut Vec<(String, Json)>,
) -> (res: Result<(Vec<(String, Json)>, Vec<(String, Json)>, Vec<String>), crate::frontmatter::FrontMatterError>)
    ensures
        match group_error(old(press)@, old(root)@) {
            Some(g) => res matches Err(e) && owned(e.message) == not_mapping(g) && e.line is None
                && e.col is None,
            None => res matches Ok((keys, pk, dep)) && owned_taken(
                old(press)@,
                old(root)@,
                keys@,
                pk@,
                dep@,
                final(press)@,
                final(root)@,
            ),
        },
{
    let ghost p = press@;
    let ghost r = root@;
    proof {
        lemma_tables();
    }
    let root_list: [&str; 7] = ["title", "subtitle", "authors", "date", "id", "lang", "epigraph"];
    let press_list: [&str; 4] = ["base_level", "declare", "sources", "features"];
    proof {
        assert(name_bytes(root_list@) =~= root_names());
        assert(name_bytes(press_list@) =~= press_names());
        assert(forall|i: int| 0 <= i < 7 ==> (#[trigger] root_list@[i]).spec_bytes() == root_names()[i]);
        assert(forall|i: int| 0 <= i < 4 ==> (#[trigger] press_list@[i]).spec_bytes() == press_names()[i]);
    }
    let mut keys: Vec<(String, Json)> = Vec::new();
    take_all(press, root, root_list.as_slice(), &mut keys);
    let mut press_keys: Vec<(String, Json)> = Vec::new();
    take_all(press, root, press_list.as_slice(), &mut press_keys);
    proof {
        lemma_drop_all_concat(p, root_names(), press_names());
        lemma_drop_all_concat(r, root_names(), press_names());
        assert forall|x: Seq<u8>| #[trigger] lookup(press_keys@, x) == if press_names().contains(x) {
            taken(p, r, x)
        } else {
            None
        } by {
            lemma_taken_drop(p, r, root_names(), x);
        }
    }
    let mut deprecated: Vec<String> = Vec::new();
    match move_all(press, root, &mut press_keys, &mut deprecated, Ghost(p), Ghost(r)) {
        Err(e) => {
            return Err(e);
        },
        Ok(()) => {},
    }
    proof {
        reveal(owned_taken);
        assert(press_names()[0] == "base_level".spec_bytes());
        assert(press_names()[3] == "features".spec_bytes());
        lemma_names_distinct();
        assert(all_names()[7] == "base_level".spec_bytes());
        assert(all_names()[10] == "features".spec_bytes());
        assert(all_names()[8] == "declare".spec_bytes());
        assert(all_names()[9] == "sources".spec_bytes());
        assert(press_names()[1] == "declare".spec_bytes());
        assert(press_names()[2] == "sources".spec_bytes());
    }
    Ok((keys, press_keys, deprecated))
}

/// The pieces of the sorting put together.
#[verifier::spinoff_prover]
#[verifier::rlimit(30)]
proof fn lemma_sorted(
    p: Seq<(String, Json)>,
    r: Seq<(String, Json)>,
    keys0: Seq<(String, Json)>,
    dep0: Seq<String>,
    dep1: Seq<String>,
    p3: Seq<(String, Json)>,
    p4: Seq<(String, Json)>,
    p5: Seq<(String, Json)>,
    r3: Seq<(String, Json)>,
    s: Sorted,
)
    requires
        owned_taken(p, r, keys0, s.press@, dep0, p3, r3),
        style_moved(p3, "callout_style".spec_bytes(), p4),
        style_moved(p4, "admonition_style".spec_bytes(), p5),
        lookup(p3, "callout_style".spec_bytes()) is None ==> dep1 == dep0,
        lookup(p3, "callout_style".spec_bytes()) is Some ==> dep1.len() == dep0.len() + 1 && dep1.drop_last()
            == dep0 && owned(dep1.last()) == "press.".spec_bytes() + "callout_style".spec_bytes(),
        lookup(p4, "admonition_style".spec_bytes()) is None ==> s.deprecated@ == dep1,
        lookup(p4, "admonition_style".spec_bytes()) is Some ==> s.deprecated@.len() == dep1.len() + 1
            && s.deprecated@.drop_last() == dep1 && owned(s.deprecated@.last()) == "press.".spec_bytes()
            + "admonition_style".spec_bytes(),
        forall|x: Seq<u8>| #[trigger] lookup(s.keys@, x) == date_fixed(x, lookup(keys0, x)),
        distinct_keys(keys0) ==> distinct_keys(s.keys@),
        lookup(r, "press".spec_bytes()) is None,
        p5.len() == 0 ==> s.extra@ == r3,
        p5.len() > 0 ==> (s.extra@.len() == r3.len() + 1 && s.extra@.drop_last() == r3 && owned(
            s.extra@.last().0,
        ) == "press".spec_bytes() && (s.extra@.last().1 matches Json::Object(e) && e@ == p5)),
    ensures
        sorted_as(p, r, s),
{
    reveal(owned_taken);
    lemma_styles(p3, p4, p5);
    let cs = "callout_style".spec_bytes();
    let as_ = "admonition_style".spec_bytes();
    let pr = "press".spec_bytes();
    // the keys
    assert forall|x: Seq<u8>| #[trigger] lookup(s.keys@, x) == if root_names().contains(x) {
        date_fixed(x, taken(p, r, x))
    } else {
        None
    } by {
        assert(lookup(keys0, x) == if root_names().contains(x) {
            taken(p, r, x)
        } else {
            None
        });
    }
    // the extra keys
    assert forall|x: Seq<u8>| x != pr implies #[trigger] lookup(s.extra@, x) == if owned_names().contains(x) {
        None
    } else {
        lookup(r, x)
    } by {
        lemma_drop_all(r, owned_names(), x);
        if p5.len() > 0 {
            assert(s.extra@ =~= r3.push(s.extra@.last()));
            lemma_lookup_push(r3, s.extra@.last(), x);
        }
    }
    lemma_drop_all(r, owned_names(), pr);
    if p5.len() > 0 {
        assert(s.extra@ =~= r3.push(s.extra@.last()));
        lemma_lookup_push(r3, s.extra@.last(), pr);
    }
    // the deprecated spellings
    assert(dep1.map_values(|d: String| owned(d)) =~= dep0.map_values(|d: String| owned(d)) + if lookup(p3, cs) is Some {
        seq!["press.".spec_bytes() + cs]
    } else {
        Seq::<Seq<u8>>::empty()
    }) by {
        if lookup(p3, cs) is Some {
            assert(dep1 =~= dep0.push(dep1.last()));
        }
    }
    assert(s.deprecated@.map_values(|d: String| owned(d)) =~= dep1.map_values(|d: String| owned(d)) + if lookup(p3, as_) is Some {
        seq!["press.".spec_bytes() + as_]
    } else {
        Seq::<Seq<u8>>::empty()
    }) by {
        if lookup(p4, as_) is Some {
            assert(s.deprecated@ =~= dep1.push(s.deprecated@.last()));
        }
    }
}

/// What sorting the keys of `value` gives: an error when the root,
/// `press` or a group that a deprecated spelling moves into is no
/// mapping, else the sorted keys.
pub open spec fn sorted_from(
    value: Json,
    r: Result<Sorted, crate::frontmatter::FrontMatterError>,
) -> bool {
    match root_of(value) {
        None => r matches Err(e) && owned(e.message) == not_a_mapping() && e.line is None && e.col
            is None,
        Some(root) => match press_of(root) {
            None => r matches Err(e) && owned(e.message) == press_not_a_mapping() && e.line is None
                && e.col is None,
            Some(p) => match group_error(p, drop_key(root, "press".spec_bytes())) {
                Some(g) => r matches Err(e) && owned(e.message) == not_mapping(g) && e.line is None
                    && e.col is None,
                None => r matches Ok(s) && sorted_as(p, drop_key(root, "press".spec_bytes()), s),
            },
        },
    }
}

/// Sorts the keys of the front matter: every key TMark owns is looked up
/// under `press` first, then at the root; a deprecated top-level spelling
/// fills its canonical group when that group does not already set it and
/// is recorded; the deprecated spellings of `press.callouts.style` move
/// there; every other key is kept as written. The front matter must be a
/// mapping (or empty), and so must `press` and every group a deprecated
/// spelling moves into.
pub fn sort_keys(value: Json) -> (r: Result<Sorted, crate::frontmatter::FrontMatterError>)
    ensures
        sorted_from(value, r),
{
    let mut root = match value {
        Json::Null => Vec::new(),
        Json::Object(m) => m,
        _ => {
            return Err(crate::frontmatter::FrontMatterError::new(String::from_str("front matter must be a YAML mapping")));
        },
    };
    let ghost r0 = root@;
    let mut press = match remove_key(&mut root, "press") {
        None => Vec::new(),
        Some(Json::Null) => Vec::new(),
        Some(Json::Object(m)) => m,
        Some(_) => {
            return Err(crate::frontmatter::FrontMatterError::new(String::from_str("`press` must be a mapping")));
        },
    };
    let ghost p = press@;
    let ghost r = root@;
    let (mut keys, press_keys, mut deprecated) = match take_owned(&mut press, &mut root) {
        Err(e) => {
            return Err(e);
        },
        Ok(t) => t,
    };
    let ghost keys0 = keys@;
    let ghost dep0 = deprecated@;
    let ghost p3 = press@;
    proof {
        lemma_style_keys();
    }
    move_style(&mut press, "callout_style", &mut deprecated);
    let ghost dep1 = deprecated@;
    let ghost p4 = press@;
    move_style(&mut press, "admonition_style", &mut deprecated);
    let ghost p5 = press@;
    fix_date(&mut keys);
    let ghost r3 = root@;
    if press.len() > 0 {
        let name = String::from_str("press");
        root.push((name, Json::Object(press)));
        proof {
            assert(root@.drop_last() =~= r3);
        }
    }
    let sorted = Sorted { keys, press: press_keys, extra: root, deprecated };
    proof {
        lemma_drop_key(r0, "press".spec_bytes(), "press".spec_bytes());
        lemma_sorted(p, r, keys0, dep0, dep1, p3, p4, p5, r3, sorted);
    }
    Ok(sorted)
}

} // verus!
