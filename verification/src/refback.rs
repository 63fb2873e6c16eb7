//! A printed citation reads back: the inside of `@[item; item]` as the
//! printer writes it parses to the items it was printed from.
//!
//! The reading of a part of a text depends on that part alone when an
//! ASCII byte (or the end of the text) stands on both sides of it: no
//! whitespace character can cross into it. The proof reads each item in
//! such a window, then the items one by one from the separators.

use vstd::prelude::*;
use vstd::string::*;
use crate::fmt::item_text;
use crate::head::{
    item_head_end, key_start, parse_ref_items_spec, pieces, ref_item_spec, ref_key, word_start,
};
use crate::node::RefItemModel;
use crate::text::{
    find_from, join, last_ws, next_ws, trim_end, trim_start, words, ws_len, ws_len_before, COMMA,
    DASH, PLUS, SEMI, SPACE,
};

verus! {

/// `t` stands in `s` at `o`, with an ASCII byte or an end of `s` on
/// each side.
pub open spec fn window(s: Seq<u8>, o: int, t: Seq<u8>) -> bool {
    &&& 0 <= o
    &&& o + t.len() <= s.len()
    &&& s.subrange(o, o + t.len()) == t
    &&& (o == 0 || s[o - 1] < 0x80)
    &&& (o + t.len() == s.len() || s[o + t.len()] < 0x80)
}

proof fn lemma_window_byte(s: Seq<u8>, o: int, t: Seq<u8>, i: int)
    requires
        window(s, o, t),
        0 <= i < t.len(),
    ensures
        s[o + i] == t[i],
{
    assert(s.subrange(o, o + t.len())[i] == s[o + i]);
}

proof fn lemma_window_ws_len(s: Seq<u8>, o: int, t: Seq<u8>, i: int)
    requires
        window(s, o, t),
        0 <= i < t.len(),
    ensures
        ws_len(s, o + i) == ws_len(t, i),
{
    lemma_window_byte(s, o, t, i);
    if i + 1 < t.len() {
        lemma_window_byte(s, o, t, i + 1);
    }
    if i + 2 < t.len() {
        lemma_window_byte(s, o, t, i + 2);
    }
}

proof fn lemma_window_ws_len_before(s: Seq<u8>, o: int, t: Seq<u8>, j: int)
    requires
        window(s, o, t),
        0 < j <= t.len(),
    ensures
        ws_len_before(s, o + j) == ws_len_before(t, j),
{
    lemma_window_byte(s, o, t, j - 1);
    if j >= 2 {
        lemma_window_byte(s, o, t, j - 2);
    }
    if j >= 3 {
        lemma_window_byte(s, o, t, j - 3);
    }
}

proof fn lemma_window_trim_start(s: Seq<u8>, o: int, t: Seq<u8>, i: int, j: int)
    requires
        window(s, o, t),
        0 <= i <= j <= t.len(),
    ensures
        trim_start(s, o + i, o + j) == o + trim_start(t, i, j),
    decreases j - i,
{
    if i < j {
        lemma_window_ws_len(s, o, t, i);
        if ws_len(t, i) > 0 && i + ws_len(t, i) <= j {
            lemma_window_trim_start(s, o, t, i + ws_len(t, i), j);
        }
    }
}

proof fn lemma_window_trim_end(s: Seq<u8>, o: int, t: Seq<u8>, i: int, j: int)
    requires
        window(s, o, t),
        0 <= i <= j <= t.len(),
    ensures
        trim_end(s, o + i, o + j) == o + trim_end(t, i, j),
    decreases j - i,
{
    if i < j {
        lemma_window_ws_len_before(s, o, t, j);
        if ws_len_before(t, j) > 0 && i <= j - ws_len_before(t, j) {
            lemma_window_trim_end(s, o, t, i, j - ws_len_before(t, j));
        }
    }
}

proof fn lemma_window_find(s: Seq<u8>, o: int, t: Seq<u8>, i: int, j: int, x: u8)
    requires
        window(s, o, t),
        0 <= i <= j <= t.len(),
    ensures
        find_from(s, o + i, o + j, x) == o + find_from(t, i, j, x),
    decreases j - i,
{
    if i < j {
        lemma_window_byte(s, o, t, i);
        lemma_window_find(s, o, t, i + 1, j, x);
    }
}

/// A position of `t` moved to `s`, -1 staying -1.
pub open spec fn moved(o: int, k: int) -> int {
    if k == -1 {
        -1
    } else {
        o + k
    }
}

proof fn lemma_window_last_ws(s: Seq<u8>, o: int, t: Seq<u8>, lo: int, k: int, hi: int)
    requires
        window(s, o, t),
        0 <= lo,
        k <= hi <= t.len(),
    ensures
        last_ws(s, o + lo, o + k, o + hi) == moved(o, last_ws(t, lo, k, hi)),
    decreases k - lo,
{
    crate::text::lemma_last_ws(t, lo, k, hi);
    if k > lo {
        lemma_window_ws_len(s, o, t, k - 1);
        lemma_window_last_ws(s, o, t, lo, k - 1, hi);
    }
}

proof fn lemma_window_next_ws(s: Seq<u8>, o: int, t: Seq<u8>, i: int, hi: int)
    requires
        window(s, o, t),
        0 <= i <= hi <= t.len(),
    ensures
        next_ws(s, o + i, o + hi) == o + next_ws(t, i, hi),
    decreases hi - i,
{
    if i < hi {
        lemma_window_ws_len(s, o, t, i);
        lemma_window_next_ws(s, o, t, i + 1, hi);
    }
}

proof fn lemma_window_words(s: Seq<u8>, o: int, t: Seq<u8>, lo: int, hi: int)
    requires
        window(s, o, t),
        0 <= lo <= hi <= t.len(),
    ensures
        words(s, o + lo, o + hi) == words(t, lo, hi),
    decreases hi - lo,
{
    lemma_window_trim_start(s, o, t, lo, hi);
    crate::text::lemma_trim_start_range(t, lo, hi);
    let a = trim_start(t, lo, hi);
    lemma_window_next_ws(s, o, t, a, hi);
    crate::text::lemma_next_ws(t, a, hi);
    let e = next_ws(t, a, hi);
    if !(a >= hi || a < lo || e <= lo || e > hi) {
        assert(s.subrange(o + a, o + e) =~= t.subrange(a, e)) by {
            assert forall|m: int| 0 <= m < e - a implies s.subrange(o + a, o + e)[m] == t.subrange(
                a,
                e,
            )[m] by {
                lemma_window_byte(s, o, t, a + m);
            }
        }
        lemma_window_words(s, o, t, e, hi);
    }
}

proof fn lemma_window_sub(s: Seq<u8>, o: int, t: Seq<u8>, a: int, b: int)
    requires
        window(s, o, t),
        0 <= a <= b <= t.len(),
    ensures
        s.subrange(o + a, o + b) == t.subrange(a, b),
{
    assert forall|m: int| 0 <= m < b - a implies s.subrange(o + a, o + b)[m] == t.subrange(a, b)[m] by {
        lemma_window_byte(s, o, t, a + m);
    }
    assert(s.subrange(o + a, o + b) =~= t.subrange(a, b));
}

/// Dropping trailing whitespace stays inside the range.
pub proof fn lemma_trim_end_range(s: Seq<u8>, i: int, j: int)
    requires
        i <= j,
    ensures
        i <= trim_end(s, i, j) <= j,
    decreases j - i,
{
    if i < j && ws_len_before(s, j) > 0 && i <= j - ws_len_before(s, j) {
        lemma_trim_end_range(s, i, j - ws_len_before(s, j));
    }
}

/// Two items equal but for where their keys sit.
pub open spec fn same_item(a: RefItemModel, b: RefItemModel) -> bool {
    &&& a.prefix == b.prefix
    &&& a.suppress_author == b.suppress_author
    &&& a.narrative == b.narrative
    &&& a.key == b.key
    &&& a.suffix == b.suffix
}

/// An item reads the same in a window as on its own.
proof fn lemma_window_item(s: Seq<u8>, o: int, t: Seq<u8>)
    requires
        window(s, o, t),
    ensures
        same_item(ref_item_spec(s, o, o + t.len()), ref_item_spec(t, 0, t.len() as int)),
{
    let n = t.len() as int;
    lemma_window_trim_start(s, o, t, 0, n);
    crate::text::lemma_trim_start_range(t, 0, n);
    let t0 = trim_start(t, 0, n);
    lemma_window_trim_end(s, o, t, t0, n);
    lemma_trim_end_range(t, t0, n);
    let t1 = trim_end(t, t0, n);
    lemma_window_find(s, o, t, t0, t1, COMMA);
    crate::text::lemma_find_from(t, t0, t1, COMMA);
    let c = find_from(t, t0, t1, COMMA);
    if c < t1 {
        lemma_window_trim_end(s, o, t, t0, c);
        lemma_trim_end_range(t, t0, c);
    }
    let h1 = item_head_end(t, t0, t1);
    assert(item_head_end(s, o + t0, o + t1) == o + h1);
    lemma_window_last_ws(s, o, t, t0, h1, h1);
    crate::text::lemma_last_ws(t, t0, h1, h1);
    let w = last_ws(t, t0, h1, h1);
    if w >= 0 {
        lemma_window_ws_len(s, o, t, w);
    }
    let w0 = word_start(t, t0, h1);
    assert(word_start(s, o + t0, o + h1) == o + w0);
    if w0 < h1 {
        lemma_window_byte(s, o, t, w0);
        if w0 + 1 < h1 {
            lemma_window_byte(s, o, t, w0 + 1);
        }
    }
    let c0 = key_start(t, w0, h1);
    assert(key_start(s, o + w0, o + h1) == o + c0);
    if w0 < h1 {
        lemma_window_sub(s, o, t, c0, h1);
        lemma_trim_end_range(t, t0, w0);
        lemma_window_trim_end(s, o, t, t0, w0);
        let pe = trim_end(t, t0, w0);
        lemma_window_words(s, o, t, t0, pe);
        if c < t1 {
            lemma_window_trim_start(s, o, t, c + 1, t1);
            crate::text::lemma_trim_start_range(t, c + 1, t1);
            let a = trim_start(t, c + 1, t1);
            lemma_window_trim_end(s, o, t, a, t1);
            lemma_trim_end_range(t, a, t1);
            let e = trim_end(t, a, t1);
            lemma_window_sub(s, o, t, a, e);
        }
    }
    lemma_window_sub(s, o, t, t0, t1);
}

// ---------------------------------------------------------------------------
// One item
// ---------------------------------------------------------------------------

/// A prefix that reads back as written: words with single spaces between
/// them, no blank at either end, and no `,` or `;`.
pub open spec fn plain_prefix(p: Seq<u8>) -> bool {
    &&& p.len() > 0
    &&& ws_len(p, 0) == 0
    &&& ws_len_before(p, p.len() as int) == 0
    &&& join(words(p, 0, p.len() as int), seq![SPACE]) == p
    &&& !p.contains(COMMA)
    &&& !p.contains(SEMI)
}

/// A suffix that reads back as written: not empty, no blank at either
/// end, and no `;`.
pub open spec fn plain_suffix(x: Seq<u8>) -> bool {
    &&& x.len() > 0
    &&& ws_len(x, 0) == 0
    &&& ws_len_before(x, x.len() as int) == 0
    &&& !x.contains(SEMI)
}

/// An item the printer writes so that it reads back: a bracketed key, at
/// most one flag, and a plain prefix and suffix where it has them.
pub open spec fn printable(it: RefItemModel) -> bool {
    &&& ref_key(it.key)
    &&& !(it.suppress_author && it.narrative)
    &&& (it.prefix matches Some(p) ==> plain_prefix(p))
    &&& (it.suffix matches Some(x) ==> plain_suffix(x))
}

/// A visible ASCII byte starts and ends no whitespace character.
proof fn lemma_visible(s: Seq<u8>, m: int)
    requires
        0 <= m < s.len(),
        0x21 <= s[m] <= 0x7e,
    ensures
        ws_len(s, m) == 0,
        ws_len_before(s, m + 1) == 0,
{
}

proof fn lemma_find_at(s: Seq<u8>, i: int, j: int, x: u8, k: int)
    requires
        i <= k <= j,
        forall|m: int| i <= m < k ==> s[m] != x,
        k == j || s[k] == x,
    ensures
        find_from(s, i, j, x) == k,
    decreases k - i,
{
    if i < k {
        lemma_find_at(s, i + 1, j, x, k);
    }
}

proof fn lemma_last_ws_none(s: Seq<u8>, lo: int, k: int, hi: int)
    requires
        forall|m: int| lo <= m < k ==> ws_len(s, m) == 0,
    ensures
        last_ws(s, lo, k, hi) == -1,
    decreases k - lo,
{
    if k > lo {
        lemma_last_ws_none(s, lo, k - 1, hi);
    }
}

proof fn lemma_last_ws_at(s: Seq<u8>, lo: int, k: int, hi: int, at: int)
    requires
        lo <= at < k,
        ws_len(s, at) > 0,
        at + ws_len(s, at) <= hi,
        forall|m: int| at < m < k ==> ws_len(s, m) == 0,
    ensures
        last_ws(s, lo, k, hi) == at,
    decreases k - lo,
{
    if k - 1 > at {
        lemma_last_ws_at(s, lo, k - 1, hi, at);
    }
}

/// The bytes of the flag of an item.
pub open spec fn flag_bytes(it: RefItemModel) -> Seq<u8> {
    if it.suppress_author {
        seq![DASH]
    } else if it.narrative {
        seq![PLUS]
    } else {
        Seq::<u8>::empty()
    }
}

/// The bytes of the prefix of an item, with the space after it.
pub open spec fn prefix_bytes(it: RefItemModel) -> Seq<u8> {
    match it.prefix {
        Some(p) => p + seq![SPACE],
        None => Seq::<u8>::empty(),
    }
}

/// The bytes of the suffix of an item, with the `, ` before it.
pub open spec fn suffix_bytes(it: RefItemModel) -> Seq<u8> {
    match it.suffix {
        Some(x) => seq![COMMA, SPACE] + x,
        None => Seq::<u8>::empty(),
    }
}

proof fn lemma_item_text(it: RefItemModel)
    ensures
        item_text(it) == prefix_bytes(it) + flag_bytes(it) + it.key + suffix_bytes(it),
{
    reveal_strlit(", ");
    vstd::string::is_ascii_spec_bytes(", ");
    assert(is_ascii(", "));
    assert(", ".spec_bytes() =~= seq![COMMA, SPACE]);
}

/// Where the parts of `a + b + c + d + e` sit.
proof fn lemma_parts(a: Seq<u8>, b: Seq<u8>, c: Seq<u8>, d: Seq<u8>, e: Seq<u8>)
    ensures
        ({
            let w = a + b + c + d + e;
            let (x1, x2, x3, x4) = (
                a.len() as int,
                (a.len() + b.len()) as int,
                (a.len() + b.len() + c.len()) as int,
                (a.len() + b.len() + c.len() + d.len()) as int,
            );
            &&& w.len() == x4 + e.len()
            &&& w.subrange(0, x1) == a
            &&& w.subrange(x1, x2) == b
            &&& w.subrange(x2, x3) == c
            &&& w.subrange(x3, x4) == d
            &&& w.subrange(x4, w.len() as int) == e
        }),
{
    let ab = a + b;
    let abc = ab + c;
    let abcd = abc + d;
    let w = abcd + e;
    assert(w.subrange(0, abcd.len() as int) =~= abcd);
    assert(w.subrange(abcd.len() as int, w.len() as int) =~= e);
    assert(abcd.subrange(0, abc.len() as int) =~= abc);
    assert(abcd.subrange(abc.len() as int, abcd.len() as int) =~= d);
    assert(abc.subrange(0, ab.len() as int) =~= ab);
    assert(abc.subrange(ab.len() as int, abc.len() as int) =~= c);
    assert(ab.subrange(0, a.len() as int) =~= a);
    assert(ab.subrange(a.len() as int, ab.len() as int) =~= b);
    assert(w.subrange(0, a.len() as int) =~= a);
    assert(w.subrange(a.len() as int, ab.len() as int) =~= b);
    assert(w.subrange(ab.len() as int, abc.len() as int) =~= c);
    assert(w.subrange(abc.len() as int, abcd.len() as int) =~= d);
}

/// A byte of a part.
proof fn lemma_part_byte(w: Seq<u8>, x: int, y: int, t: Seq<u8>, m: int)
    requires
        0 <= x <= y <= w.len(),
        w.subrange(x, y) == t,
        0 <= m < t.len(),
    ensures
        w[x + m] == t[m],
{
    assert(w.subrange(x, y)[m] == w[x + m]);
}

/// Where the flag of an item starts in its text after `lead`.
pub open spec fn flag_at(it: RefItemModel, lead: Seq<u8>) -> int {
    (lead.len() + prefix_bytes(it).len()) as int
}

/// Where the key of an item starts in its text after `lead`.
pub open spec fn key_at(it: RefItemModel, lead: Seq<u8>) -> int {
    flag_at(it, lead) + flag_bytes(it).len()
}

/// Where the key of an item ends in its text after `lead`.
pub open spec fn key_end(it: RefItemModel, lead: Seq<u8>) -> int {
    key_at(it, lead) + it.key.len()
}

/// What the reading of an item needs of its bytes.
pub open spec fn laid_out(it: RefItemModel, lead: Seq<u8>, w: Seq<u8>) -> bool {
    let ll = lead.len() as int;
    let fpos = flag_at(it, lead);
    let kpos = key_at(it, lead);
    let kend = key_end(it, lead);
    &&& fpos < kend
    &&& kpos < kend
    &&& (ll == 1 ==> w[0] == SPACE)
    &&& forall|m: int| fpos <= m < kend ==> 0x21 <= #[trigger] w[m] <= 0x7e && w[m] != COMMA
    &&& crate::text::alnum(w[kpos])
    &&& w.subrange(kpos, kend) == it.key
    &&& (flag_bytes(it).len() == 1 ==> w[fpos] == flag_bytes(it)[0])
    &&& (flag_bytes(it).len() == 0 ==> kpos == fpos)
    &&& (it.prefix matches Some(p) ==> {
        &&& window(w, ll, p)
        &&& w[fpos - 1] == SPACE
        &&& fpos == ll + p.len() + 1
        &&& forall|m: int| ll <= m < ll + p.len() ==> #[trigger] w[m] != COMMA
    })
    &&& (it.prefix is None ==> fpos == ll)
    &&& (it.suffix matches Some(x) ==> {
        &&& w[kend] == COMMA
        &&& w[kend + 1] == SPACE
        &&& window(w, kend + 2, x)
        &&& w.len() == kend + 2 + x.len()
    })
    &&& (it.suffix is None ==> w.len() == kend)
}

/// `w` is the parts of an item after `lead`, end to end.
pub open spec fn parts_of(it: RefItemModel, lead: Seq<u8>, w: Seq<u8>) -> bool {
    let ll = lead.len() as int;
    let fpos = flag_at(it, lead);
    let kpos = key_at(it, lead);
    let kend = key_end(it, lead);
    &&& w.len() == kend + suffix_bytes(it).len()
    &&& w.subrange(0, ll) == lead
    &&& w.subrange(ll, fpos) == prefix_bytes(it)
    &&& w.subrange(fpos, kpos) == flag_bytes(it)
    &&& w.subrange(kpos, kend) == it.key
    &&& w.subrange(kend, w.len() as int) == suffix_bytes(it)
}

proof fn lemma_parts_of(it: RefItemModel, lead: Seq<u8>)
    ensures
        parts_of(it, lead, lead + item_text(it)),
{
    lemma_item_text(it);
    let w = lead + item_text(it);
    assert(w =~= lead + prefix_bytes(it) + flag_bytes(it) + it.key + suffix_bytes(it));
    lemma_parts(lead, prefix_bytes(it), flag_bytes(it), it.key, suffix_bytes(it));
}

proof fn lemma_laid_out_head(it: RefItemModel, lead: Seq<u8>, w: Seq<u8>)
    requires
        printable(it),
        lead == Seq::<u8>::empty() || lead == seq![SPACE],
        parts_of(it, lead, w),
    ensures
        ({
            let ll = lead.len() as int;
            let fpos = flag_at(it, lead);
            let kpos = key_at(it, lead);
            let kend = key_end(it, lead);
            &&& fpos < kend
            &&& kpos < kend
            &&& (ll == 1 ==> w[0] == SPACE)
            &&& forall|m: int| fpos <= m < kend ==> 0x21 <= #[trigger] w[m] <= 0x7e && w[m] != COMMA
            &&& crate::text::alnum(w[kpos])
            &&& (flag_bytes(it).len() == 1 ==> w[fpos] == flag_bytes(it)[0])
            &&& (flag_bytes(it).len() == 0 ==> kpos == fpos)
            &&& (it.prefix is None ==> fpos == ll)
        }),
{
    let ll = lead.len() as int;
    let fb = flag_bytes(it);
    let key = it.key;
    let fpos = flag_at(it, lead);
    let kpos = key_at(it, lead);
    let kend = key_end(it, lead);
    if ll == 1 {
        lemma_part_byte(w, 0, ll, lead, 0);
    }
    assert forall|m: int| fpos <= m < kend implies 0x21 <= #[trigger] w[m] <= 0x7e && w[m] != COMMA by {
        if m < kpos {
            lemma_part_byte(w, fpos, kpos, fb, m - fpos);
        } else {
            lemma_part_byte(w, kpos, kend, key, m - kpos);
            assert(crate::head::ref_key_byte(key[m - kpos]));
        }
    }
    lemma_part_byte(w, kpos, kend, key, 0);
    if fb.len() == 1 {
        lemma_part_byte(w, fpos, kpos, fb, 0);
    }
}

proof fn lemma_laid_out_prefix(it: RefItemModel, lead: Seq<u8>, w: Seq<u8>, p: Seq<u8>)
    requires
        printable(it),
        it.prefix == Some(p),
        lead == Seq::<u8>::empty() || lead == seq![SPACE],
        parts_of(it, lead, w),
    ensures
        ({
            let ll = lead.len() as int;
            let fpos = flag_at(it, lead);
            &&& window(w, ll, p)
            &&& w[fpos - 1] == SPACE
            &&& fpos == ll + p.len() + 1
            &&& forall|m: int| ll <= m < ll + p.len() ==> #[trigger] w[m] != COMMA
        }),
{
    let ll = lead.len() as int;
    let pb = prefix_bytes(it);
    let fpos = flag_at(it, lead);
    assert(w.subrange(ll, ll + p.len()) =~= p) by {
        assert forall|m: int| 0 <= m < p.len() implies w.subrange(ll, ll + p.len())[m] == p[m] by {
            lemma_part_byte(w, ll, fpos, pb, m);
        }
    }
    lemma_part_byte(w, ll, fpos, pb, p.len() as int);
    if ll == 1 {
        lemma_part_byte(w, 0, ll, lead, 0);
    }
    assert forall|m: int| ll <= m < ll + p.len() implies #[trigger] w[m] != COMMA by {
        lemma_part_byte(w, ll, fpos, pb, m - ll);
        if p[m - ll] == COMMA {
            assert(p.contains(COMMA));
        }
    }
}

proof fn lemma_laid_out_suffix(it: RefItemModel, lead: Seq<u8>, w: Seq<u8>, x: Seq<u8>)
    requires
        it.suffix == Some(x),
        parts_of(it, lead, w),
    ensures
        ({
            let kend = key_end(it, lead);
            &&& w[kend] == COMMA
            &&& w[kend + 1] == SPACE
            &&& window(w, kend + 2, x)
            &&& w.len() == kend + 2 + x.len()
        }),
{
    let kend = key_end(it, lead);
    let sb = suffix_bytes(it);
    lemma_part_byte(w, kend, w.len() as int, sb, 0);
    lemma_part_byte(w, kend, w.len() as int, sb, 1);
    assert(w.subrange(kend + 2, w.len() as int) =~= x) by {
        assert forall|m: int| 0 <= m < x.len() implies w.subrange(kend + 2, w.len() as int)[m] == x[m] by {
            lemma_part_byte(w, kend, w.len() as int, sb, m + 2);
        }
    }
}

proof fn lemma_laid_out(it: RefItemModel, lead: Seq<u8>)
    requires
        printable(it),
        lead == Seq::<u8>::empty() || lead == seq![SPACE],
    ensures
        laid_out(it, lead, lead + item_text(it)),
{
    let w = lead + item_text(it);
    lemma_parts_of(it, lead);
    lemma_laid_out_head(it, lead, w);
    if let Some(p) = it.prefix {
        lemma_laid_out_prefix(it, lead, w, p);
    }
    if let Some(x) = it.suffix {
        lemma_laid_out_suffix(it, lead, w, x);
    }
}

/// The head of a laid-out item: where it starts and ends, where its key
/// sits.
proof fn lemma_item_head(it: RefItemModel, lead: Seq<u8>, w: Seq<u8>)
    requires
        printable(it),
        lead == Seq::<u8>::empty() || lead == seq![SPACE],
        laid_out(it, lead, w),
    ensures
        ({
            let ll = lead.len() as int;
            let n = w.len() as int;
            let kend = key_end(it, lead);
            &&& trim_start(w, 0, n) == ll
            &&& trim_end(w, ll, n) == n
            &&& find_from(w, ll, n, COMMA) == (if it.suffix is Some { kend } else { n })
            &&& item_head_end(w, ll, n) == kend
        }),
{
    let ll = lead.len() as int;
    let n = w.len() as int;
    let fpos = flag_at(it, lead);
    let kpos = key_at(it, lead);
    let kend = key_end(it, lead);
    assert forall|m: int| fpos <= m < kend implies #[trigger] ws_len(w, m) == 0 by {
        lemma_visible(w, m);
    }
    lemma_visible(w, kend - 1);
    if let Some(p) = it.prefix {
        lemma_window_ws_len(w, ll, p, 0);
    }
    assert(ws_len(w, ll) == 0);
    assert(trim_start(w, ll, n) == ll);
    assert(trim_start(w, 0, n) == ll);
    if let Some(x) = it.suffix {
        lemma_window_ws_len_before(w, kend + 2, x, x.len() as int);
    }
    assert(ws_len_before(w, n) == 0);
    assert(trim_end(w, ll, n) == n);
    if it.suffix is Some {
        lemma_find_at(w, ll, n, COMMA, kend);
        assert(trim_end(w, ll, kend) == kend);
    } else {
        lemma_find_at(w, ll, n, COMMA, n);
    }
}

/// The last word of a laid-out item's head is its flag and key.
proof fn lemma_item_word(it: RefItemModel, lead: Seq<u8>, w: Seq<u8>)
    requires
        printable(it),
        lead == Seq::<u8>::empty() || lead == seq![SPACE],
        laid_out(it, lead, w),
    ensures
        ({
            let ll = lead.len() as int;
            let fpos = flag_at(it, lead);
            let kend = key_end(it, lead);
            &&& last_ws(w, ll, kend, kend) == (if it.prefix is Some { fpos - 1 } else { -1 })
            &&& word_start(w, ll, kend) == fpos
            &&& key_start(w, fpos, kend) == key_at(it, lead)
            &&& trim_end(w, ll, fpos) == (if let Some(p) = it.prefix { ll + p.len() } else { ll })
        }),
{
    let ll = lead.len() as int;
    let fpos = flag_at(it, lead);
    let kend = key_end(it, lead);
    assert forall|m: int| fpos <= m < kend implies #[trigger] ws_len(w, m) == 0 by {
        lemma_visible(w, m);
    }
    if let Some(p) = it.prefix {
        lemma_last_ws_at(w, ll, kend, kend, fpos - 1);
        lemma_window_ws_len_before(w, ll, p, p.len() as int);
        assert(trim_end(w, ll, fpos - 1) == fpos - 1);
    } else {
        lemma_last_ws_none(w, ll, kend, kend);
    }
}

/// A laid-out item reads back.
proof fn lemma_item_fields(it: RefItemModel, lead: Seq<u8>, w: Seq<u8>)
    requires
        printable(it),
        lead == Seq::<u8>::empty() || lead == seq![SPACE],
        laid_out(it, lead, w),
    ensures
        same_item(ref_item_spec(w, 0, w.len() as int), it),
{
    let ll = lead.len() as int;
    let n = w.len() as int;
    let fpos = flag_at(it, lead);
    let kend = key_end(it, lead);
    lemma_item_head(it, lead, w);
    lemma_item_word(it, lead, w);
    if let Some(p) = it.prefix {
        lemma_window_words(w, ll, p, 0, p.len() as int);
        assert(w.subrange(ll, ll + p.len()) == p);
    }
    if let Some(x) = it.suffix {
        lemma_window_ws_len(w, kend + 2, x, 0);
        lemma_window_ws_len_before(w, kend + 2, x, x.len() as int);
        assert(trim_start(w, kend + 2, n) == kend + 2);
        assert(trim_start(w, kend + 1, n) == kend + 2);
        assert(trim_end(w, kend + 2, n) == n);
    }
}

// ---------------------------------------------------------------------------
// The list
// ---------------------------------------------------------------------------

/// An item's text holds no `;`.
proof fn lemma_no_semi(it: RefItemModel)
    requires
        printable(it),
    ensures
        forall|m: int| 0 <= m < item_text(it).len() ==> #[trigger] item_text(it)[m] != SEMI,
{
    let w = item_text(it);
    let lead = Seq::<u8>::empty();
    lemma_parts_of(it, lead);
    assert(lead + w =~= w);
    let fpos = flag_at(it, lead);
    let kpos = key_at(it, lead);
    let kend = key_end(it, lead);
    assert forall|m: int| 0 <= m < w.len() implies #[trigger] w[m] != SEMI by {
        if m < fpos {
            lemma_part_byte(w, 0, fpos, prefix_bytes(it), m);
            if let Some(p) = it.prefix {
                if m < p.len() && p[m] == SEMI {
                    assert(p.contains(SEMI));
                }
            }
        } else if m < kpos {
            lemma_part_byte(w, fpos, kpos, flag_bytes(it), m - fpos);
        } else if m < kend {
            lemma_part_byte(w, kpos, kend, it.key, m - kpos);
            assert(crate::head::ref_key_byte(it.key[m - kpos]));
        } else {
            lemma_part_byte(w, kend, w.len() as int, suffix_bytes(it), m - kend);
            if let Some(x) = it.suffix {
                if m - kend >= 2 && x[m - kend - 2] == SEMI {
                    assert(x.contains(SEMI));
                }
            }
        }
    }
}

/// Splitting at `;`, a text then `;` then a text without one: the
/// pieces of the first text, then the second.
proof fn lemma_pieces_concat(a: Seq<u8>, b: Seq<u8>, i: int)
    requires
        0 <= i <= a.len(),
        forall|m: int| 0 <= m < b.len() ==> b[m] != SEMI,
    ensures
        pieces(a + seq![SEMI] + b, i) == pieces(a, i) + seq![((a.len() + 1) as int, (a.len() + 1 + b.len()) as int)],
    decreases a.len() - i,
{
    let s = a + seq![SEMI] + b;
    crate::text::lemma_find_from(a, i, a.len() as int, SEMI);
    let c = find_from(a, i, a.len() as int, SEMI);
    lemma_find_at(s, i, s.len() as int, SEMI, c);
    if c < a.len() {
        lemma_pieces_concat(a, b, c + 1);
        assert(pieces(s, i) == seq![(i, c)] + pieces(s, c + 1));
        assert(pieces(a, i) == seq![(i, c)] + pieces(a, c + 1));
        assert(pieces(s, i) =~= pieces(a, i) + seq![((a.len() + 1) as int, (a.len() + 1 + b.len()) as int)]);
    } else {
        lemma_find_at(s, a.len() + 1 as int, s.len() as int, SEMI, s.len() as int);
        assert(pieces(s, a.len() + 1 as int) == seq![((a.len() + 1) as int, s.len() as int)]);
        assert(pieces(s, i) =~= pieces(a, i) + seq![((a.len() + 1) as int, (a.len() + 1 + b.len()) as int)]);
    }
}

/// The text of the `k`th piece of a printed list: the item's text, with
/// the space of the `; ` before it but for the first.
pub open spec fn piece_text(texts: Seq<Seq<u8>>, k: int) -> Seq<u8> {
    if k == 0 {
        texts[0]
    } else {
        seq![SPACE] + texts[k]
    }
}

/// The pieces of `s` are windows that hold the texts, in order.
pub open spec fn pieces_hold(s: Seq<u8>, texts: Seq<Seq<u8>>) -> bool {
    &&& pieces(s, 0).len() == texts.len()
    &&& forall|k: int|
        0 <= k < texts.len() ==> window(s, (#[trigger] pieces(s, 0)[k]).0, piece_text(texts, k))
            && pieces(s, 0)[k].1 == pieces(s, 0)[k].0 + piece_text(texts, k).len()
}

/// A window stays one when an ASCII byte is written after the text.
proof fn lemma_window_extend(a: Seq<u8>, r: Seq<u8>, o: int, t: Seq<u8>)
    requires
        window(a, o, t),
        r.len() > 0,
        r[0] < 0x80,
    ensures
        window(a + r, o, t),
{
    let s = a + r;
    assert(s.subrange(o, o + t.len()) =~= a.subrange(o, o + t.len()));
}

proof fn lemma_join_pieces(texts: Seq<Seq<u8>>)
    requires
        texts.len() > 0,
        forall|k: int, m: int| 0 <= k < texts.len() && 0 <= m < texts[k].len() ==> #[trigger] texts[k][m] != SEMI,
    ensures
        pieces_hold(join(texts, seq![SEMI, SPACE]), texts),
    decreases texts.len(),
{
    let sep = seq![SEMI, SPACE];
    let s = join(texts, sep);
    if texts.len() == 1 {
        assert(s == texts[0]);
        lemma_find_at(s, 0, s.len() as int, SEMI, s.len() as int);
        assert(pieces(s, 0) == seq![(0int, s.len() as int)]);
        assert(s.subrange(0, s.len() as int) =~= s);
    } else {
        let prev = texts.drop_last();
        let a = join(prev, sep);
        let last = texts.last();
        lemma_join_pieces(prev);
        let b = seq![SPACE] + last;
        assert(s =~= a + seq![SEMI] + b);
        assert forall|m: int| 0 <= m < b.len() implies b[m] != SEMI by {
            if m > 0 {
                assert(b[m] == texts[texts.len() - 1][m - 1]);
            }
        }
        lemma_pieces_concat(a, b, 0);
        let n = texts.len() - 1;
        assert forall|k: int|
            0 <= k < texts.len() implies window(s, (#[trigger] pieces(s, 0)[k]).0, piece_text(texts, k))
            && pieces(s, 0)[k].1 == pieces(s, 0)[k].0 + piece_text(texts, k).len() by {
            if k < n {
                assert(pieces(s, 0)[k] == pieces(a, 0)[k]);
                assert(piece_text(texts, k) == piece_text(prev, k));
                lemma_window_extend(a, seq![SEMI] + b, pieces(a, 0)[k].0, piece_text(prev, k));
                assert(a + (seq![SEMI] + b) =~= s);
            } else {
                assert(pieces(s, 0)[k] == ((a.len() + 1) as int, (a.len() + 1 + b.len()) as int));
                assert(piece_text(texts, k) =~= b);
                assert(s.subrange(a.len() + 1 as int, s.len() as int) =~= b);
            }
        }
    }
}

/// What the printer promises of a citation: the inside of `@[...]`, the
/// items' texts joined by `; `, reads back as the items, but for where
/// their keys sit, when each item is printable (a bracketed key, at most
/// one flag, a prefix of single-spaced words and a suffix with no blank at
/// either end, neither holding `;`, the prefix no `,`).
pub proof fn lemma_reference_reads_back(items: Seq<RefItemModel>)
    requires
        items.len() > 0,
        forall|k: int| 0 <= k < items.len() ==> printable(#[trigger] items[k]),
    ensures
        ({
            let inner = join(items.map_values(|it: RefItemModel| item_text(it)), "; ".spec_bytes());
            &&& parse_ref_items_spec(inner).len() == items.len()
            &&& forall|k: int|
                0 <= k < items.len() ==> same_item(#[trigger] parse_ref_items_spec(inner)[k], items[k])
        }),
{
    reveal_strlit("; ");
    vstd::string::is_ascii_spec_bytes("; ");
    assert(is_ascii("; "));
    assert("; ".spec_bytes() =~= seq![SEMI, SPACE]);
    let texts = items.map_values(|it: RefItemModel| item_text(it));
    let inner = join(texts, "; ".spec_bytes());
    assert forall|k: int, m: int| 0 <= k < texts.len() && 0 <= m < texts[k].len() implies #[trigger] texts[k][m] != SEMI by {
        lemma_no_semi(items[k]);
    }
    lemma_join_pieces(texts);
    let ps = pieces(inner, 0);
    assert forall|k: int| 0 <= k < items.len() implies same_item(ref_item_spec(inner, ps[k].0, ps[k].1), items[k]) by {
        let t = piece_text(texts, k);
        let lead = if k == 0 { Seq::<u8>::empty() } else { seq![SPACE] };
        assert(t =~= lead + item_text(items[k]));
        lemma_window_item(inner, ps[k].0, t);
        lemma_laid_out(items[k], lead);
        lemma_item_fields(items[k], lead, t);
    }
    assert forall|k: int| 0 <= k < items.len() implies same_item(#[trigger] parse_ref_items_spec(inner)[k], items[k]) by {
        assert(parse_ref_items_spec(inner)[k] == ref_item_spec(inner, ps[k].0, ps[k].1));
    }
}

} // verus!
