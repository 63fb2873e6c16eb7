//! The canonical text of an attribute list reads back as the list: what
//! `attrs_text` prints between the braces, `parse_attrs` parses into the
//! same id, classes and pairs.

use vstd::prelude::*;
use crate::attrs::{empty_model, AttrsModel};
use crate::head::{
    attr_parts, attr_step, attrs_fold, attrs_start, attrs_text_spec, id_byte, key_seq,
    key_value_spec, lemma_value_round_trip, parse_attrs_spec, quote_needed, skip_blank,
    token_end, tokens_from, value_text,
};
use crate::scan::ident_byte;
use crate::span::{FileId, Span, SubSpan};
use crate::text::{
    esc, find_from, join, lemma_find_from, space, trim_start, ws_len, BSL, COLON, DOT, EQ, HASH,
    QUOTE, SPACE,
};

verus! {

// ---------------------------------------------------------------------------
// Scanning one token
// ---------------------------------------------------------------------------

/// Outside quotes, bytes that are neither blanks nor quotes do not end or
/// change the token being scanned.
proof fn lemma_scan_plain(s: Seq<u8>, i: int, j: int)
    requires
        0 <= i <= j <= s.len(),
        forall|k: int| i <= k < j ==> !space(#[trigger] s[k]) && s[k] != QUOTE,
    ensures
        token_end(s, i, false) == token_end(s, j, false),
    decreases j - i,
{
    if i < j {
        lemma_scan_plain(s, i + 1, j);
    }
}

/// Escaping a byte, then the rest.
proof fn lemma_esc_front(c: u8, r: Seq<u8>)
    ensures
        esc(seq![c] + r, seq![BSL, QUOTE]) == (if c == BSL || c == QUOTE {
            seq![BSL, c]
        } else {
            seq![c]
        }) + esc(r, seq![BSL, QUOTE]),
    decreases r.len(),
{
    let sp = seq![BSL, QUOTE];
    let v = seq![c] + r;
    assert(sp.contains(c) == (c == BSL || c == QUOTE)) by {
        if c == BSL {
            assert(sp[0] == c);
        } else if c == QUOTE {
            assert(sp[1] == c);
        }
    }
    if r.len() == 0 {
        assert(v.drop_last() =~= Seq::<u8>::empty());
        assert(v.last() == c);
        assert(esc(Seq::<u8>::empty(), sp) =~= Seq::<u8>::empty());
        assert(esc(r, sp) =~= Seq::<u8>::empty());
    } else {
        assert(v.drop_last() =~= seq![c] + r.drop_last());
        assert(v.last() == r.last());
        lemma_esc_front(c, r.drop_last());
        let x = r.last();
        assert(sp.contains(x) == (x == BSL || x == QUOTE)) by {
            if x == BSL {
                assert(sp[0] == x);
            } else if x == QUOTE {
                assert(sp[1] == x);
            }
        }
    }
}

/// Inside quotes, an escaped value is read over up to the quote that
/// closes it.
proof fn lemma_scan_quoted(s: Seq<u8>, i: int, v: Seq<u8>)
    requires
        0 <= i,
        i + esc(v, seq![BSL, QUOTE]).len() < s.len(),
        s.subrange(i, i + esc(v, seq![BSL, QUOTE]).len()) == esc(v, seq![BSL, QUOTE]),
        s[i + esc(v, seq![BSL, QUOTE]).len()] == QUOTE,
    ensures
        token_end(s, i, true) == token_end(s, i + esc(v, seq![BSL, QUOTE]).len() + 1, false),
    decreases v.len(),
{
    let sp = seq![BSL, QUOTE];
    if v.len() == 0 {
        assert(esc(v, sp) =~= Seq::<u8>::empty());
    } else {
        let c = v[0];
        let r = v.subrange(1, v.len() as int);
        assert(v =~= seq![c] + r);
        lemma_esc_front(c, r);
        let w = if c == BSL || c == QUOTE {
            2int
        } else {
            1int
        };
        let e = esc(v, sp);
        assert(e.len() == w + esc(r, sp).len());
        assert(s[i] == e[0]) by {
            assert(s.subrange(i, i + e.len())[0] == s[i]);
        }
        assert(s.subrange(i + w, i + w + esc(r, sp).len()) =~= esc(r, sp)) by {
            assert forall|k: int| 0 <= k < esc(r, sp).len() implies s.subrange(
                i + w,
                i + w + esc(r, sp).len(),
            )[k] == esc(r, sp)[k] by {
                assert(s.subrange(i, i + e.len())[w + k] == e[w + k]);
            }
        }
        if w == 2 {
            assert(s[i + 1] == c) by {
                assert(s.subrange(i, i + e.len())[1] == s[i + 1]);
            }
        }
        lemma_scan_quoted(s, i + w, r);
    }
}

// ---------------------------------------------------------------------------
// The printed items
// ---------------------------------------------------------------------------

/// Whether an attribute list prints as text that reads back: an id made
/// of id bytes, classes and keys that are identifiers, and one item at
/// least.
pub open spec fn printable(m: AttrsModel) -> bool {
    &&& match m.id {
        Some(id) => id.len() >= 1 && id.len() < 0xffff_ffff && forall|k: int|
            0 <= k < id.len() ==> id_byte(#[trigger] id[k]),
        None => true,
    }
    &&& forall|j: int| 0 <= j < m.classes.len() ==> key_seq(#[trigger] m.classes[j])
    &&& forall|j: int| 0 <= j < m.kv.len() ==> key_seq(#[trigger] m.kv[j].0)
    &&& (m.id is Some || m.classes.len() > 0 || m.kv.len() > 0)
}

/// How many id items a list prints.
pub open spec fn id_count(m: AttrsModel) -> int {
    if m.id is Some {
        1
    } else {
        0
    }
}

/// The item printed at `j`.
proof fn lemma_part_shape(m: AttrsModel, j: int)
    requires
        0 <= j < attr_parts(m).len(),
    ensures
        attr_parts(m).len() == id_count(m) + m.classes.len() + m.kv.len(),
        j < id_count(m) ==> attr_parts(m)[j] == seq![HASH] + m.id->0,
        id_count(m) <= j < id_count(m) + m.classes.len() ==> attr_parts(m)[j] == seq![DOT]
            + m.classes[j - id_count(m)],
        id_count(m) + m.classes.len() <= j ==> attr_parts(m)[j] == m.kv[j - id_count(m)
            - m.classes.len()].0 + seq![EQ] + value_text(m.kv[j - id_count(m) - m.classes.len()].1),
{
    let a = match m.id {
        Some(id) => seq![seq![HASH] + id],
        None => Seq::<Seq<u8>>::empty(),
    };
    let b = m.classes.map_values(|c: Seq<u8>| seq![DOT] + c);
    let c = m.kv.map_values(|p: (Seq<u8>, Seq<u8>)| p.0 + seq![EQ] + value_text(p.1));
    assert(attr_parts(m) == a + b + c);
    assert(a.len() == id_count(m));
    if j < a.len() {
        assert((a + b + c)[j] == a[j]);
    } else if j < a.len() + b.len() {
        assert((a + b + c)[j] == b[j - a.len()]);
    } else {
        assert((a + b + c)[j] == c[j - a.len() - b.len()]);
    }
}

/// An identifier byte is neither a blank, a quote, nor any of `#.:=`.
proof fn lemma_ident_byte(x: u8)
    requires
        ident_byte(x),
    ensures
        !space(x),
        x != QUOTE,
        x != HASH,
        x != DOT,
        x != COLON,
        x != EQ,
        x < 0x80,
{
}

/// A printed item is not empty and starts with an ASCII byte that is
/// neither blank nor colon.
proof fn lemma_part_first(m: AttrsModel, j: int)
    requires
        printable(m),
        0 <= j < attr_parts(m).len(),
    ensures
        attr_parts(m)[j].len() >= 1,
        !space(attr_parts(m)[j][0]),
        attr_parts(m)[j][0] != COLON,
        attr_parts(m)[j][0] != 0x0b,
        attr_parts(m)[j][0] < 0x80,
        attr_parts(m)[j][0] == HASH <==> j < id_count(m),
        attr_parts(m)[j][0] == DOT <==> id_count(m) <= j < id_count(m) + m.classes.len(),
{
    lemma_part_shape(m, j);
    let c = id_count(m) + m.classes.len();
    if j >= c {
        let key = m.kv[j - c].0;
        assert(key_seq(key));
        lemma_ident_byte(key[0]);
        assert(attr_parts(m)[j][0] == key[0]);
    }
}

/// The token that starts with a printed item, followed by a blank or the
/// end, is the item.
proof fn lemma_part_token(m: AttrsModel, j: int, s: Seq<u8>, i: int)
    requires
        printable(m),
        0 <= j < attr_parts(m).len(),
        0 <= i,
        i + attr_parts(m)[j].len() <= s.len(),
        s.subrange(i, i + attr_parts(m)[j].len()) == attr_parts(m)[j],
        i + attr_parts(m)[j].len() == s.len() || space(s[i + attr_parts(m)[j].len()]),
    ensures
        attr_parts(m)[j].len() >= 1,
        !space(attr_parts(m)[j][0]),
        attr_parts(m)[j][0] != COLON,
        attr_parts(m)[j][0] < 0x80,
        token_end(s, i, false) == i + attr_parts(m)[j].len(),
{
    lemma_part_shape(m, j);
    let p = attr_parts(m)[j];
    let e = i + p.len();
    assert forall|k: int| 0 <= k < p.len() implies s[i + k] == #[trigger] p[k] by {
        assert(s.subrange(i, e)[k] == s[i + k]);
    }
    let c = id_count(m) + m.classes.len();
    if j < c {
        assert(forall|k: int| 1 <= k < p.len() ==> ident_byte(#[trigger] p[k]) || p[k] == COLON
            || p[k] == DOT);
        assert forall|k: int| i <= k < e implies !space(#[trigger] s[k]) && s[k] != QUOTE by {
            assert(s[k] == p[k - i]);
            if k > i {
                if ident_byte(p[k - i]) {
                    lemma_ident_byte(p[k - i]);
                }
            }
        }
        lemma_scan_plain(s, i, e);
    } else {
        let kv = m.kv[j - c];
        let key = kv.0;
        let v = kv.1;
        assert(key_seq(key));
        lemma_ident_byte(key[0]);
        let q = i + key.len();
        assert forall|k: int| i <= k < q + 1 implies !space(#[trigger] s[k]) && s[k] != QUOTE by {
            assert(s[k] == p[k - i]);
            if k < q {
                assert(p[k - i] == key[k - i]);
                lemma_ident_byte(key[k - i]);
            }
        }
        lemma_scan_plain(s, i, q + 1);
        if quote_needed(v) {
            let sp = seq![BSL, QUOTE];
            let ev = esc(v, sp);
            assert(value_text(v) == seq![QUOTE] + ev + seq![QUOTE]);
            assert(p.len() == key.len() + ev.len() + 3);
            assert(s[q + 1] == QUOTE) by {
                assert(p[key.len() + 1int] == QUOTE);
            }
            assert(s.subrange(q + 2, q + 2 + ev.len()) =~= ev) by {
                assert forall|k: int| 0 <= k < ev.len() implies s.subrange(q + 2, q + 2 + ev.len())[k]
                    == ev[k] by {
                    assert(p[key.len() + 2 + k] == ev[k]);
                }
            }
            assert(s[q + 2 + ev.len()] == QUOTE) by {
                assert(p[key.len() + 2 + ev.len() as int] == QUOTE);
            }
            lemma_scan_quoted(s, q + 2, v);
        } else {
            assert(value_text(v) == v);
            assert forall|k: int| q + 1 <= k < e implies !space(#[trigger] s[k]) && s[k] != QUOTE by {
                let t = k - q - 1;
                assert(s[k] == p[k - i]);
                assert(p[k - i] == v[t]);
                if space(v[t]) {
                    assert(ws_len(v, t) > 0);
                }
            }
            lemma_scan_plain(s, q + 1, e);
        }
    }
}

// ---------------------------------------------------------------------------
// The tokens of the printed text
// ---------------------------------------------------------------------------

/// The byte ranges the items of `q` take when printed from `at` on, one
/// blank between each two.
pub open spec fn part_ranges(q: Seq<Seq<u8>>, at: int) -> Seq<(int, int)>
    decreases q.len(),
{
    if q.len() == 0 {
        seq![]
    } else {
        seq![(at, at + q[0].len())] + part_ranges(q.drop_first(), at + q[0].len() + 1)
    }
}

/// A suffix of `s` that is `a` then `b` splits where `a` ends.
proof fn lemma_split(s: Seq<u8>, i: int, a: Seq<u8>, b: Seq<u8>)
    requires
        0 <= i <= s.len(),
        s.subrange(i, s.len() as int) == a + b,
    ensures
        s.subrange(i, i + a.len()) == a,
        s.subrange(i + a.len(), s.len() as int) == b,
{
    let t = s.subrange(i, s.len() as int);
    assert(t.len() == s.len() - i);
    assert(t.len() == (a + b).len());
    assert(t.len() == a.len() + b.len());
    assert forall|x: int| 0 <= x < a.len() implies s.subrange(i, i + a.len())[x] == a[x] by {
        assert(t[x] == s[i + x]);
        assert((a + b)[x] == a[x]);
    }
    assert(s.subrange(i, i + a.len()) =~= a);
    assert forall|x: int| 0 <= x < b.len() implies s.subrange(i + a.len(), s.len() as int)[x]
        == b[x] by {
        assert(t[a.len() + x] == s[i + a.len() + x]);
        assert((a + b)[a.len() + x] == b[x]);
    }
    assert(s.subrange(i + a.len(), s.len() as int) =~= b);
}

/// A joined list is its first item, the separator, then the rest joined.
proof fn lemma_join_front(q: Seq<Seq<u8>>, sep: Seq<u8>)
    requires
        q.len() >= 2,
    ensures
        join(q, sep) == q[0] + sep + join(q.drop_first(), sep),
    decreases q.len(),
{
    if q.len() == 2 {
        assert(q.drop_last() =~= seq![q[0]]);
        assert(q.drop_first() =~= seq![q[1]]);
        assert(join(q.drop_last(), sep) == q[0]);
        assert(join(q.drop_first(), sep) == q[1]);
        assert(join(q, sep) == q[0] + sep + q[1]);
    } else {
        lemma_join_front(q.drop_last(), sep);
        assert(q.drop_last().drop_first() =~= q.drop_first().drop_last());
        assert(q.drop_first().last() == q.last());
        assert(q.drop_last()[0] == q[0]);
        let r = join(q.drop_first().drop_last(), sep);
        assert(join(q.drop_first(), sep) == r + sep + q.last());
        assert(join(q, sep) == join(q.drop_last(), sep) + sep + q.last());
        assert(join(q.drop_last(), sep) == q[0] + sep + r);
        assert(join(q, sep) =~= q[0] + sep + (r + sep + q.last()));
    }
}

/// A joined list of items starts with its first item.
proof fn lemma_join_or_single(q: Seq<Seq<u8>>)
    requires
        q.len() >= 1,
        q[0].len() >= 1,
    ensures
        join(q, seq![SPACE])[0] == q[0][0],
        join(q, seq![SPACE]).len() >= 1,
{
    if q.len() >= 2 {
        lemma_join_front(q, seq![SPACE]);
    }
}

/// The printed items from `k` on, read as tokens from where they start:
/// one token per item, each covering its item.
proof fn lemma_tokens(m: AttrsModel, s: Seq<u8>, i: int, k: int)
    requires
        printable(m),
        0 <= k < attr_parts(m).len(),
        0 <= i <= s.len(),
        s.subrange(i, s.len() as int) == join(
            attr_parts(m).subrange(k, attr_parts(m).len() as int),
            seq![SPACE],
        ),
    ensures
        tokens_from(s, i) == part_ranges(attr_parts(m).subrange(k, attr_parts(m).len() as int), i),
        tokens_from(s, i).len() == attr_parts(m).len() - k,
        tokens_from(s, i)[0].0 == i,
        forall|j: int|
            0 <= j < tokens_from(s, i).len() ==> {
                let t = #[trigger] tokens_from(s, i)[j];
                &&& i <= t.0 < t.1 <= s.len()
                &&& s.subrange(t.0, t.1) == attr_parts(m)[k + j]
            },
    decreases attr_parts(m).len() - k,
{
    let parts = attr_parts(m);
    let n = parts.len() as int;
    let sub = parts.subrange(k, n);
    let p = parts[k];
    let e = i + p.len();
    if k == n - 1 {
        assert(sub =~= seq![p]);
        assert(join(sub, seq![SPACE]) == p);
        assert(s.subrange(i, s.len() as int).len() == p.len());
        assert(s.subrange(i, e) =~= p);
        lemma_part_token(m, k, s, i);
        assert(skip_blank(s, i) == i);
        assert(skip_blank(s, e) == e);
        assert(tokens_from(s, e) =~= Seq::<(int, int)>::empty());
        assert(sub.drop_first() =~= Seq::<Seq<u8>>::empty());
        assert(part_ranges(sub.drop_first(), e + 1) =~= Seq::<(int, int)>::empty());
        assert(tokens_from(s, i) =~= seq![(i, e)]);
    } else {
        lemma_join_front(sub, seq![SPACE]);
        let rest = parts.subrange(k + 1, n);
        assert(sub.drop_first() =~= rest);
        let jr = join(rest, seq![SPACE]);
        assert(p + seq![SPACE] + jr =~= p + (seq![SPACE] + jr));
        lemma_split(s, i, p, seq![SPACE] + jr);
        lemma_split(s, e, seq![SPACE], jr);
        assert(s[e] == SPACE) by {
            assert(s.subrange(e, e + 1)[0] == s[e]);
        }
        lemma_part_token(m, k, s, i);
        lemma_tokens(m, s, e + 1, k + 1);
        let q = parts[k + 1];
        lemma_part_first(m, k + 1);
        assert(s[e + 1] == q[0]) by {
            assert(s.subrange(e + 1, s.len() as int)[0] == s[e + 1]);
            lemma_join_or_single(rest);
        }
        assert(skip_blank(s, i) == i);
        assert(skip_blank(s, e + 1) == e + 1);
        assert(skip_blank(s, e) == e + 1);
        assert(tokens_from(s, e) == tokens_from(s, e + 1));
        assert(tokens_from(s, i) == seq![(i, e)] + tokens_from(s, e));
        let r = tokens_from(s, i);
        assert forall|j: int| 0 <= j < r.len() implies {
            let t = #[trigger] r[j];
            &&& i <= t.0 < t.1 <= s.len()
            &&& s.subrange(t.0, t.1) == parts[k + j]
        } by {
            if j > 0 {
                assert(r[j] == tokens_from(s, e + 1)[j - 1]);
            }
        }
    }
}

// ---------------------------------------------------------------------------
// Reading the tokens back
// ---------------------------------------------------------------------------

/// Where the id of a printed list sits in the text between its braces:
/// right after the `#` that opens it.
pub open spec fn printed_id_span(m: AttrsModel) -> Option<SubSpan> {
    match m.id {
        Some(id) => Some(SubSpan(Span { file: FileId(0), start: 1u32, end: (id.len() + 1) as u32 })),
        None => None,
    }
}

/// `x` held between 0 and `hi`.
pub open spec fn clamp(x: int, hi: int) -> int {
    if x < 0 {
        0
    } else if x > hi {
        hi
    } else {
        x
    }
}

/// The list read back from the first `k` printed items.
pub open spec fn read_back(m: AttrsModel, k: int) -> AttrsModel {
    let ic = id_count(m);
    let c = m.classes.len() as int;
    AttrsModel {
        id: if k >= 1 {
            m.id
        } else {
            None
        },
        id_span: if k >= 1 {
            printed_id_span(m)
        } else {
            None
        },
        classes: m.classes.take(clamp(k - ic, c)),
        kv: m.kv.take(clamp(k - ic - c, m.kv.len() as int)),
    }
}

/// What the reading of the printed text needs of its tokens: one per
/// item, each covering its item, the first at the start.
pub open spec fn covers(m: AttrsModel, s: Seq<u8>, list: Seq<(int, int)>) -> bool {
    &&& list.len() == attr_parts(m).len()
    &&& list[0].0 == 0
    &&& forall|j: int|
        0 <= j < list.len() ==> {
            let t = #[trigger] list[j];
            &&& 0 <= t.0 < t.1 <= s.len()
            &&& s.subrange(t.0, t.1) == attr_parts(m)[j]
        }
}

/// The token of the id item reads as the id, located after the `#`.
proof fn lemma_step_id(m: AttrsModel, s: Seq<u8>, list: Seq<(int, int)>)
    requires
        printable(m),
        covers(m, s, list),
        m.id is Some,
    ensures
        attr_step(s, list[0], read_back(m, 0)) == Some(read_back(m, 1)),
{
    let t = list[0];
    let a = t.0;
    let b = t.1;
    let p = attr_parts(m)[0];
    lemma_part_shape(m, 0);
    let id = m.id->0;
    assert(0 <= a < b <= s.len());
    assert(s.subrange(a, b) == p);
    assert(p =~= seq![HASH] + id);
    assert(b - a == s.subrange(a, b).len());
    assert(b - a == 1 + id.len());
    assert(s[a] == HASH) by {
        assert(s.subrange(a, b)[0] == s[a]);
    }
    assert(s.subrange(a + 1, b) =~= id) by {
        assert forall|x: int| 0 <= x < id.len() implies s.subrange(a + 1, b)[x] == id[x] by {
            assert(s.subrange(a, b)[x + 1] == s[a + 1 + x]);
        }
    }
    assert forall|x: int| a + 1 <= x < b implies id_byte(#[trigger] s[x]) by {
        assert(s.subrange(a + 1, b)[x - a - 1] == s[x]);
    }
    assert(read_back(m, 1).classes =~= read_back(m, 0).classes);
    assert(read_back(m, 1).kv =~= read_back(m, 0).kv);
}

/// The token of a class item adds the class.
proof fn lemma_step_class(m: AttrsModel, s: Seq<u8>, list: Seq<(int, int)>, j: int)
    requires
        printable(m),
        covers(m, s, list),
        id_count(m) <= j < id_count(m) + m.classes.len(),
    ensures
        attr_step(s, list[j], read_back(m, j)) == Some(read_back(m, j + 1)),
{
    let t = list[j];
    let a = t.0;
    let b = t.1;
    let p = attr_parts(m)[j];
    lemma_part_shape(m, j);
    let ic = id_count(m);
    let cl = m.classes[j - ic];
    assert(0 <= a < b <= s.len());
    assert(s.subrange(a, b) == p);
    assert(p =~= seq![DOT] + cl);
    assert(b - a == s.subrange(a, b).len());
    assert(b - a == 1 + cl.len());
    assert(s[a] == DOT) by {
        assert(s.subrange(a, b)[0] == s[a]);
    }
    assert(s.subrange(a + 1, b) =~= cl) by {
        assert forall|x: int| 0 <= x < cl.len() implies s.subrange(a + 1, b)[x] == cl[x] by {
            assert(s.subrange(a, b)[x + 1] == s[a + 1 + x]);
        }
    }
    assert(key_seq(cl));
    assert(m.classes.take(j - ic).push(cl) =~= m.classes.take(j - ic + 1));
    assert(read_back(m, j + 1).kv =~= read_back(m, j).kv);
}

/// The token of a `key=value` item adds the pair, its value read back.
proof fn lemma_step_pair(m: AttrsModel, s: Seq<u8>, list: Seq<(int, int)>, j: int)
    requires
        printable(m),
        covers(m, s, list),
        id_count(m) + m.classes.len() <= j < attr_parts(m).len(),
    ensures
        attr_step(s, list[j], read_back(m, j)) == Some(read_back(m, j + 1)),
{
    let t = list[j];
    let a = t.0;
    let b = t.1;
    let p = attr_parts(m)[j];
    lemma_part_shape(m, j);
    let ic = id_count(m);
    let c = m.classes.len() as int;
    let kv = m.kv[j - ic - c];
    let key = kv.0;
    let v = kv.1;
    let vt = value_text(v);
    assert(key_seq(key));
    assert(0 <= a < b <= s.len());
    assert(s.subrange(a, b) == p);
    assert(p =~= key + (seq![EQ] + vt));
    assert(b - a == s.subrange(a, b).len());
    assert(b - a == key.len() + 1 + vt.len());
    let e = a + key.len();
    assert forall|x: int| a <= x < e implies s[x] != EQ && s[x] == key[x - a] by {
        assert(s.subrange(a, b)[x - a] == s[x]);
        lemma_ident_byte(key[x - a]);
    }
    assert(s[a] != HASH && s[a] != DOT) by {
        lemma_ident_byte(key[0]);
    }
    assert(s[e] == EQ) by {
        assert(s.subrange(a, b)[key.len() as int] == s[e]);
    }
    lemma_find_from(s, a, b, EQ);
    assert(find_from(s, a, b, EQ) == e);
    assert(s.subrange(a, e) =~= key);
    assert(s.subrange(e + 1, b) =~= vt) by {
        assert forall|x: int| 0 <= x < vt.len() implies s.subrange(e + 1, b)[x] == vt[x] by {
            assert(s.subrange(a, b)[key.len() + 1 + x] == s[e + 1 + x]);
        }
    }
    assert(vt.len() >= 1) by {
        if !quote_needed(v) {
            assert(v.len() > 0);
        }
    }
    lemma_value_round_trip(v);
    assert(key_value_spec(s, a, b) == Some((key, v)));
    assert(m.kv.take(j - ic - c).push(kv) =~= m.kv.take(j - ic - c + 1));
    assert(read_back(m, j + 1).classes =~= read_back(m, j).classes);
}

/// Reading the tokens of the printed text one by one rebuilds the list
/// item by item.
proof fn lemma_fold(m: AttrsModel, s: Seq<u8>, list: Seq<(int, int)>, k: int)
    requires
        printable(m),
        covers(m, s, list),
        0 <= k <= attr_parts(m).len(),
    ensures
        attrs_fold(s, list, k) == Some(read_back(m, k)),
    decreases k,
{
    if k == 0 {
        assert(read_back(m, 0) =~= empty_model());
    } else {
        lemma_fold(m, s, list, k - 1);
        let j = k - 1;
        lemma_part_shape(m, j);
        if j < id_count(m) {
            lemma_step_id(m, s, list);
        } else if j < id_count(m) + m.classes.len() {
            lemma_step_class(m, s, list, j);
        } else {
            lemma_step_pair(m, s, list, j);
        }
    }
}

/// An attribute list printed canonically reads back as the same list:
/// what `attrs_text` writes between the braces, `parse_attrs` parses into
/// the same id, classes and pairs, the id located right after its `#`.
/// The list must have an item, an id made of id bytes, and classes and
/// keys that are identifiers; any value reads back, quoted or not.
pub proof fn lemma_attrs_read_back(m: AttrsModel)
    requires
        printable(m),
    ensures
        parse_attrs_spec(attrs_text_spec(m).subrange(1, attrs_text_spec(m).len() - 1)) == Some(
            AttrsModel { id_span: printed_id_span(m), ..m },
        ),
{
    let parts = attr_parts(m);
    let n = parts.len() as int;
    let s = join(parts, seq![SPACE]);
    let full = attrs_text_spec(m);
    assert(full.subrange(1, full.len() - 1) =~= s);
    assert(parts.subrange(0, n) =~= parts);
    assert(s.subrange(0, s.len() as int) =~= s);
    lemma_tokens(m, s, 0, 0);
    lemma_part_first(m, 0);
    lemma_join_or_single(parts);
    assert(ws_len(s, 0) == 0);
    assert(trim_start(s, 0, s.len() as int) == 0);
    assert(attrs_start(s) == 0);
    let list = tokens_from(s, 0);
    assert(covers(m, s, list));
    lemma_fold(m, s, list, n);
    let r = read_back(m, n);
    assert(m.classes.take(m.classes.len() as int) =~= m.classes);
    assert(m.kv.take(m.kv.len() as int) =~= m.kv);
    assert(r =~= AttrsModel { id_span: printed_id_span(m), ..m });
}

} // verus!
