//! Pieces of the inline lowering that decide on text alone: where the
//! decoded text of a run sits in its source, what a link points at, the
//! side of an aside, the parts of a counter item, the DOI spelling of a
//! citation key.

use vstd::prelude::*;
use vstd::string::*;
use vstd::utf8::*;
use crate::head::{ident_seq, is_ident};
use crate::node::{Side, Target};
use crate::sugar::{id_key, key_tail_byte};
use crate::text::{
    alnum, find_byte, find_from, has_at, is_alnum, lemma_find_from, owned, push_range, range_eq,
    starts_at, string_of, substring, boundary, lemma_after_ascii, AMP, BSL, COLON, DASH, DOT,
    HASH, SEMI, SLASH, UNDERSCORE, LBRACE, RBRACE,
};

verus! {

broadcast use vstd::utf8::encode_utf8_valid_utf8, vstd::utf8::encode_utf8_decode_utf8;

// ---------------------------------------------------------------------------
// Alignment of decoded text with its source
// ---------------------------------------------------------------------------

/// ASCII punctuation, as `u8::is_ascii_punctuation` reads it.
pub open spec fn punct(b: u8) -> bool {
    (0x21 <= b <= 0x2f) || (0x3a <= b <= 0x40) || (0x5b <= b <= 0x60) || (0x7b <= b <= 0x7e)
}

/// A byte of a character reference's name: an ASCII letter or digit, or
/// `#`.
pub open spec fn entity_byte(b: u8) -> bool {
    alnum(b) || b == HASH
}

/// The length of the name of the character reference that starts at the
/// `&` at `j`: the first `;` among the 40 bytes after the `&`, when at
/// least one byte comes before it and all of them are name bytes.
pub open spec fn entity_end(s: Seq<u8>, j: int) -> Option<int> {
    let lim = if j + 41 < s.len() {
        j + 41
    } else {
        s.len() as int
    };
    let e = find_from(s, j + 1, lim, SEMI);
    if e < lim && e > j + 1 && forall|k: int| j + 1 <= k < e ==> #[trigger] entity_byte(s[k]) {
        Some(e - (j + 1))
    } else {
        None
    }
}

/// Whether `s[j..j + 5]` is `&amp;` in any case.
pub open spec fn amp_at(s: Seq<u8>, j: int) -> bool {
    &&& j + 5 <= s.len()
    &&& s[j] == AMP
    &&& (s[j + 1] == 0x61 || s[j + 1] == 0x41)
    &&& (s[j + 2] == 0x6d || s[j + 2] == 0x4d)
    &&& (s[j + 3] == 0x70 || s[j + 3] == 0x50)
    &&& s[j + 4] == SEMI
}

/// The number of continuation bytes from `k` on.
pub open spec fn cont_run(t: Seq<u8>, k: int) -> nat
    decreases t.len() - k,
{
    if 0 <= k < t.len() && is_continuation_byte(t[k]) {
        1 + cont_run(t, k + 1)
    } else {
        0
    }
}

pub proof fn lemma_cont_run(t: Seq<u8>, k: int)
    requires
        0 <= k <= t.len(),
    ensures
        k + cont_run(t, k) <= t.len(),
    decreases t.len() - k,
{
    if k < t.len() && is_continuation_byte(t[k]) {
        lemma_cont_run(t, k + 1);
    }
}

/// The byte length of the character that starts at `i`: its first byte
/// and the continuation bytes after it.
pub open spec fn char_len(t: Seq<u8>, i: int) -> nat {
    1 + cont_run(t, i + 1)
}

/// A position and a flag put in front of an alignment.
pub open spec fn prepend(j: int, flag: bool, r: Option<(Seq<int>, Seq<bool>)>) -> Option<
    (Seq<int>, Seq<bool>),
> {
    match r {
        Some((o, e)) => Some((seq![j] + o, seq![flag] + e)),
        None => None,
    }
}

/// `w` copies of a position, each not escaped, put in front of an
/// alignment.
pub open spec fn prepend_n(j: int, w: nat, r: Option<(Seq<int>, Seq<bool>)>) -> Option<
    (Seq<int>, Seq<bool>),
> {
    match r {
        Some((o, e)) => Some((Seq::new(w, |_k: int| j) + o, Seq::new(w, |_k: int| false) + e)),
        None => None,
    }
}

/// The alignment of `t[i..]` (decoded) with `s[j..]` (its source): for
/// each decoded byte the source offset it starts at, the end of the text
/// last, and whether the byte was spelled with a backslash escape. A
/// backslash before ASCII punctuation spells that punctuation; a
/// character reference spells one character (`&` itself only from
/// `&amp;`); any other byte spells itself. `None` when the source does
/// not spell the text.
pub open spec fn align_spec(t: Seq<u8>, s: Seq<u8>, i: int, j: int) -> Option<(Seq<int>, Seq<bool>)>
    decreases t.len() - i,
{
    if i < 0 || i >= t.len() {
        Some((seq![j], seq![]))
    } else if j < 0 || j >= s.len() {
        None
    } else if s[j] == BSL && j + 1 < s.len() && punct(s[j + 1]) && s[j + 1] == t[i] {
        prepend(j, true, align_spec(t, s, i + 1, j + 2))
    } else if s[j] == AMP && entity_end(s, j) is Some && (t[i] != AMP || amp_at(s, j)) {
        proof {
            lemma_cont_run(t, i + 1);
        }
        prepend_n(
            j,
            char_len(t, i),
            align_spec(t, s, i + char_len(t, i), j + entity_end(s, j)->0 + 2),
        )
    } else if s[j] != t[i] {
        None
    } else {
        prepend(j, false, align_spec(t, s, i + 1, j + 1))
    }
}

/// Offsets as integers.
pub open spec fn ints(v: Seq<usize>) -> Seq<int> {
    v.map_values(|x: usize| x as int)
}

/// An alignment with what came before it.
pub open spec fn after(o0: Seq<int>, e0: Seq<bool>, r: Option<(Seq<int>, Seq<bool>)>) -> Option<
    (Seq<int>, Seq<bool>),
> {
    match r {
        Some((o, e)) => Some((o0 + o, e0 + e)),
        None => None,
    }
}

/// The decoded text of a run aligned with its source.
#[derive(Debug, PartialEq)]
pub struct Aligned {
    /// The source byte offset each decoded byte starts at, plus one entry
    /// for the end of the text.
    pub offsets: Vec<usize>,
    /// Whether the source spelled the decoded byte with a backslash escape.
    pub escaped: Vec<bool>,
}

/// Whether `s[a..b]` holds only name bytes.
fn all_entity(s: &[u8], a: usize, b: usize) -> (r: bool)
    requires
        a <= b <= s@.len(),
    ensures
        r == forall|k: int| a <= k < b ==> #[trigger] entity_byte(s@[k]),
{
    let mut k = a;
    while k < b
        invariant
            a <= k <= b <= s@.len(),
            forall|m: int| a <= m < k ==> #[trigger] entity_byte(s@[m]),
        decreases b - k,
    {
        if !(is_alnum(s[k]) || s[k] == HASH) {
            proof {
                assert(!entity_byte(s@[k as int]));
            }
            return false;
        }
        k += 1;
    }
    true
}

/// `entity_end` computed.
fn entity_at(s: &[u8], j: usize) -> (r: Option<usize>)
    requires
        j < s@.len(),
    ensures
        match r {
            Some(e) => entity_end(s@, j as int) == Some(e as int),
            None => entity_end(s@, j as int) is None,
        },
{
    let lim = if s.len() - (j + 1) > 40 {
        j + 41
    } else {
        s.len()
    };
    let e = find_byte(s, j + 1, lim, SEMI);
    if e < lim && e > j + 1 && all_entity(s, j + 1, e) {
        Some(e - (j + 1))
    } else {
        None
    }
}

/// `o` and `e` have the shape of an alignment of `n` decoded bytes read
/// from source offset `j` on, in a source of `m` bytes: an offset per
/// byte, in source order, then the end; a flag per byte.
pub open spec fn aligned_shape(o: Seq<int>, e: Seq<bool>, n: int, j: int, m: int) -> bool {
    &&& o.len() == n + 1
    &&& e.len() == n
    &&& o[0] == j
    &&& forall|k: int| 0 <= k < n ==> #[trigger] o[k] <= o[k + 1]
    &&& o[n] <= m
}

proof fn lemma_align_shape_from(t: Seq<u8>, s: Seq<u8>, i: int, j: int)
    requires
        0 <= i <= t.len(),
        0 <= j <= s.len(),
    ensures
        align_spec(t, s, i, j) matches Some((o, e)) ==> aligned_shape(
            o,
            e,
            t.len() - i,
            j,
            s.len() as int,
        ),
    decreases t.len() - i,
{
    if i < t.len() && j < s.len() {
        if s[j] == BSL && j + 1 < s.len() && punct(s[j + 1]) && s[j + 1] == t[i] {
            lemma_align_shape_from(t, s, i + 1, j + 2);
            if let Some((o, e)) = align_spec(t, s, i + 1, j + 2) {
                let o2 = seq![j] + o;
                assert forall|k: int| 0 <= k < t.len() - i implies #[trigger] o2[k] <= o2[k + 1] by {
                    if k > 0 {
                        assert(o2[k] == o[k - 1]);
                    }
                }
            }
        } else if s[j] == AMP && entity_end(s, j) is Some && (t[i] != AMP || amp_at(s, j)) {
            lemma_cont_run(t, i + 1);
            let w = char_len(t, i);
            let ee = entity_end(s, j)->0;
            crate::text::lemma_find_from(
                s,
                j + 1,
                if j + 41 < s.len() {
                    j + 41
                } else {
                    s.len() as int
                },
                SEMI,
            );
            lemma_align_shape_from(t, s, i + w, j + ee + 2);
            if let Some((o, e)) = align_spec(t, s, i + w, j + ee + 2) {
                let o2 = Seq::new(w, |_k: int| j) + o;
                assert forall|k: int| 0 <= k < t.len() - i implies #[trigger] o2[k] <= o2[k + 1] by {
                    if k >= w {
                        assert(o2[k] == o[k - w]);
                    }
                }
            }
        } else if s[j] == t[i] {
            lemma_align_shape_from(t, s, i + 1, j + 1);
            if let Some((o, e)) = align_spec(t, s, i + 1, j + 1) {
                let o2 = seq![j] + o;
                assert forall|k: int| 0 <= k < t.len() - i implies #[trigger] o2[k] <= o2[k + 1] by {
                    if k > 0 {
                        assert(o2[k] == o[k - 1]);
                    }
                }
            }
        }
    }
}

/// An alignment has one source offset per decoded byte, in source order,
/// the first at the start of the source, then one for the end of the
/// text; and one escape flag per decoded byte.
pub proof fn lemma_align_shape(t: Seq<u8>, s: Seq<u8>)
    ensures
        align_spec(t, s, 0, 0) matches Some((o, e)) ==> aligned_shape(
            o,
            e,
            t.len() as int,
            0,
            s.len() as int,
        ),
{
    lemma_align_shape_from(t, s, 0, 0);
}

/// Aligns `text` (decoded) with `source`; `None` when they cannot be
/// aligned, and the caller falls back to coarser rules. Handles the two
/// decodings the tokenizer applies to a text run, backslash escapes
/// (`\\` + ASCII punctuation) and character references (`&amp;`,
/// `&#169;`), which decode to one character each.
pub fn align(text: &str, source: &str) -> (r: Option<Aligned>)
    ensures
        match r {
            Some(a) => align_spec(text.spec_bytes(), source.spec_bytes(), 0, 0) == Some(
                (ints(a.offsets@), a.escaped@),
            ),
            None => align_spec(text.spec_bytes(), source.spec_bytes(), 0, 0) is None,
        },
{
    let t = text.as_bytes();
    let s = source.as_bytes();
    let ghost whole = align_spec(t@, s@, 0, 0);
    let mut offsets: Vec<usize> = Vec::new();
    let mut escaped: Vec<bool> = Vec::new();
    let mut i: usize = 0;
    let mut j: usize = 0;
    proof {
        assert(ints(offsets@) =~= Seq::<int>::empty());
        assert(after(Seq::<int>::empty(), Seq::<bool>::empty(), whole) == whole) by {
            match whole {
                Some((o, e)) => {
                    assert(Seq::<int>::empty() + o =~= o);
                    assert(Seq::<bool>::empty() + e =~= e);
                },
                None => {},
            }
        }
    }
    while i < t.len()
        invariant
            t@ == text.spec_bytes(),
            s@ == source.spec_bytes(),
            i <= t@.len(),
            whole == align_spec(t@, s@, 0, 0),
            whole == after(ints(offsets@), escaped@, align_spec(t@, s@, i as int, j as int)),
        decreases t@.len() - i,
    {
        let ghost o0 = ints(offsets@);
        let ghost e0 = escaped@;
        if j >= s.len() {
            return None;
        }
        let sj = s[j];
        if sj == BSL && s.len() - j > 1 && {
            let c = s[j + 1];
            (0x21 <= c && c <= 0x2f) || (0x3a <= c && c <= 0x40) || (0x5b <= c && c <= 0x60) || (
            0x7b <= c && c <= 0x7e)
        } && s[j + 1] == t[i] {
            let ghost rest = align_spec(t@, s@, i + 1, j + 2);
            offsets.push(j);
            escaped.push(true);
            proof {
                assert(ints(offsets@) =~= o0 + seq![j as int]);
                assert(escaped@ =~= e0 + seq![true]);
                match rest {
                    Some((o, e)) => {
                        assert(o0 + (seq![j as int] + o) =~= ints(offsets@) + o);
                        assert(e0 + (seq![true] + e) =~= escaped@ + e);
                    },
                    None => {},
                }
            }
            i += 1;
            j += 2;
            continue;
        }
        if sj == AMP {
            match entity_at(s, j) {
                Some(end) => {
                    let amp = end == 3 && (s[j + 1] == 0x61 || s[j + 1] == 0x41) && (s[j + 2]
                        == 0x6d || s[j + 2] == 0x4d) && (s[j + 3] == 0x70 || s[j + 3] == 0x50)
                        && s[j + 4] == SEMI;
                    proof {
                        lemma_find_from(
                            s@,
                            j + 1,
                            if j + 41 < s@.len() {
                                j + 41
                            } else {
                                s@.len() as int
                            },
                            SEMI,
                        );
                    }
                    if t[i] != AMP || amp {
                        let mut k = i + 1;
                        while k < t.len() && t[k] >= 0x80 && t[k] <= 0xbf
                            invariant
                                i + 1 <= k <= t@.len(),
                                cont_run(t@, k as int) + k == cont_run(t@, i + 1) + i + 1,
                            decreases t@.len() - k,
                        {
                            k += 1;
                        }
                        let w = k - i;
                        let ghost rest = align_spec(t@, s@, k as int, j + end + 2);
                        let mut m: usize = 0;
                        while m < w
                            invariant
                                0 <= m <= w,
                                ints(offsets@) == o0 + Seq::new(m as nat, |_x: int| j as int),
                                escaped@ == e0 + Seq::new(m as nat, |_x: int| false),
                            decreases w - m,
                        {
                            let ghost prev = offsets@;
                            offsets.push(j);
                            escaped.push(false);
                            m += 1;
                            proof {
                                assert(ints(offsets@) =~= ints(prev) + seq![j as int]);
                                assert(ints(offsets@) =~= o0 + Seq::new(m as nat, |_x: int| j as int));
                                assert(escaped@ =~= e0 + Seq::new(m as nat, |_x: int| false));
                            }
                        }
                        proof {
                            match rest {
                                Some((o, e)) => {
                                    assert(o0 + (Seq::new(w as nat, |_x: int| j as int) + o)
                                        =~= ints(offsets@) + o);
                                    assert(e0 + (Seq::new(w as nat, |_x: int| false) + e)
                                        =~= escaped@ + e);
                                },
                                None => {},
                            }
                        }
                        i = k;
                        j = j + end + 2;
                        continue;
                    }
                },
                None => {},
            }
        }
        if sj != t[i] {
            return None;
        }
        let ghost rest = align_spec(t@, s@, i + 1, j + 1);
        offsets.push(j);
        escaped.push(false);
        proof {
            assert(ints(offsets@) =~= o0 + seq![j as int]);
            assert(escaped@ =~= e0 + seq![false]);
            match rest {
                Some((o, e)) => {
                    assert(o0 + (seq![j as int] + o) =~= ints(offsets@) + o);
                    assert(e0 + (seq![false] + e) =~= escaped@ + e);
                },
                None => {},
            }
        }
        i += 1;
        j += 1;
    }
    let ghost o0 = ints(offsets@);
    offsets.push(j);
    proof {
        assert(ints(offsets@) =~= o0 + seq![j as int]);
        assert(escaped@ + Seq::<bool>::empty() =~= escaped@);
    }
    Some(Aligned { offsets, escaped })
}

// ---------------------------------------------------------------------------
// Link targets, sides, counter items, DOI keys
// ---------------------------------------------------------------------------

/// Whether `s` ends with `lit`.
pub open spec fn ends_with(s: Seq<u8>, lit: Seq<u8>) -> bool {
    lit.len() <= s.len() && s.subrange(s.len() - lit.len(), s.len() as int) == lit
}

/// Whether `lit` occurs in `s`.
pub open spec fn occurs(s: Seq<u8>, lit: Seq<u8>) -> bool {
    exists|k: int| 0 <= k <= s.len() - lit.len() && #[trigger] has_at(s, k, lit)
}

/// What a link destination points at: `#id` is an anchor in this
/// document; a path ending in `.md` with no `://` is another document;
/// anything else is a URL.
pub open spec fn target_kind(u: Seq<u8>) -> (int, Seq<u8>) {
    if u.len() > 0 && u[0] == HASH {
        (0, u.subrange(1, u.len() as int))
    } else if ends_with(u, ".md".spec_bytes()) && !occurs(u, "://".spec_bytes()) {
        (1, u)
    } else {
        (2, u)
    }
}

/// The kind of a target (anchor, document, URL) and the text it holds.
pub open spec fn target_parts(t: Target) -> (int, Seq<u8>) {
    match t {
        Target::Anchor(a) => (0, owned(a)),
        Target::Document(d) => (1, owned(d)),
        Target::Url(u) => (2, owned(u)),
        Target::Reference(r) => (3, owned(r)),
    }
}

/// Whether `lit` occurs in `s`.
fn find_str(s: &[u8], lit: &[u8]) -> (r: bool)
    ensures
        r == occurs(s@, lit@),
{
    if lit.len() > s.len() {
        return false;
    }
    let last = s.len() - lit.len();
    let mut k: usize = 0;
    loop
        invariant
            lit@.len() <= s@.len(),
            last == s@.len() - lit@.len(),
            0 <= k <= last,
            forall|m: int| 0 <= m < k ==> !#[trigger] has_at(s@, m, lit@),
        decreases last - k,
    {
        if starts_at(s, k, lit) {
            return true;
        }
        if k == last {
            return false;
        }
        k += 1;
    }
}

/// What a link destination points at.
pub fn target(url: &str) -> (r: Target)
    ensures
        target_parts(r) == target_kind(url.spec_bytes()),
{
    let b = url.as_bytes();
    let n = b.len();
    if n > 0 && b[0] == HASH {
        proof {
            lemma_after_ascii(b@, 1);
        }
        return Target::Anchor(substring(url, 1, n));
    }
    let md = ".md".as_bytes();
    let ends = md.len() <= n && range_eq(b, n - md.len(), n, md);
    if ends && !find_str(b, "://".as_bytes()) {
        Target::Document(String::from_str(url))
    } else {
        Target::Url(String::from_str(url))
    }
}

/// The side an aside names: `left`/`l`, `right`/`r`, `outer`/`o`,
/// `inner`/`i`.
pub open spec fn side_of(v: Seq<u8>) -> Option<Side> {
    if v == "left".spec_bytes() || v == "l".spec_bytes() {
        Some(Side::Left)
    } else if v == "right".spec_bytes() || v == "r".spec_bytes() {
        Some(Side::Right)
    } else if v == "outer".spec_bytes() || v == "o".spec_bytes() {
        Some(Side::Outer)
    } else if v == "inner".spec_bytes() || v == "i".spec_bytes() {
        Some(Side::Inner)
    } else {
        None
    }
}

/// Whether `b` is the bytes of `lit`.
fn is_lit(b: &[u8], lit: &str) -> (r: bool)
    ensures
        r == (b@ == lit.spec_bytes()),
{
    let r = range_eq(b, 0, b.len(), lit.as_bytes());
    proof {
        assert(b@.subrange(0, b@.len() as int) =~= b@);
    }
    r
}

/// The side of an aside, from its `side=` value.
pub fn parse_side(value: &str) -> (r: Option<Side>)
    ensures
        r == side_of(value.spec_bytes()),
{
    let b = value.as_bytes();
    if is_lit(b, "left") || is_lit(b, "l") {
        Some(Side::Left)
    } else if is_lit(b, "right") || is_lit(b, "r") {
        Some(Side::Right)
    } else if is_lit(b, "outer") || is_lit(b, "o") {
        Some(Side::Outer)
    } else if is_lit(b, "inner") || is_lit(b, "i") {
        Some(Side::Inner)
    } else {
        None
    }
}

/// `prefix:key` of a counter item: the prefix an identifier, the key
/// made of `[A-Za-z0-9_.-]`, not empty.
pub open spec fn counter_spec(v: Seq<u8>) -> Option<(Seq<u8>, Seq<u8>)> {
    let c = find_from(v, 0, v.len() as int, COLON);
    let key = v.subrange(c + 1, v.len() as int);
    if c < v.len() && ident_seq(v.subrange(0, c)) && key.len() > 0 && forall|k: int|
        0 <= k < key.len() ==> #[trigger] key_tail_byte(key[k]) {
        Some((v.subrange(0, c), key))
    } else {
        None
    }
}

/// `prefix:key` of a counter item.
#[verifier::loop_isolation(false)]
pub fn parse_counter(value: &str) -> (r: Option<(String, String)>)
    ensures
        match r {
            Some((p, k)) => counter_spec(value.spec_bytes()) == Some((owned(p), owned(k))),
            None => counter_spec(value.spec_bytes()) is None,
        },
{
    let b = value.as_bytes();
    let n = b.len();
    let c = find_byte(b, 0, n, COLON);
    if c >= n || !is_ident(b, 0, c) || c + 1 >= n {
        return None;
    }
    let mut k = c + 1;
    while k < n
        invariant
            c + 1 <= k <= n,
            n == b@.len(),
            forall|m: int| c + 1 <= m < k ==> #[trigger] key_tail_byte(b@[m]),
        decreases n - k,
    {
        let x = b[k];
        if !(is_alnum(x) || x == UNDERSCORE || x == DOT || x == DASH) {
            proof {
                let key = b@.subrange(c + 1, n as int);
                assert(key[k - c - 1] == b@[k as int]);
                assert(!key_tail_byte(key[k - c - 1]));
            }
            return None;
        }
        k += 1;
    }
    proof {
        let key = b@.subrange(c + 1, n as int);
        assert forall|m: int| 0 <= m < key.len() implies #[trigger] key_tail_byte(key[m]) by {
            assert(key[m] == b@[c + 1 + m]);
        }
        lemma_after_ascii(b@, c + 1);
        crate::text::lemma_ascii_boundaries(b@);
    }
    Some((substring(value, 0, c), substring(value, c + 1, n)))
}

/// The `doi:` spelling of a citation key: `https://doi.org/…`,
/// `http://doi.org/…` and `https://dx.doi.org/…` become `doi:…`, and a
/// bare DOI `10.…/…` takes the prefix too; any other key stays.
pub open spec fn doi_spec(k: Seq<u8>) -> Seq<u8> {
    let a = "https://doi.org/".spec_bytes();
    let b = "http://doi.org/".spec_bytes();
    let c = "https://dx.doi.org/".spec_bytes();
    let d = "doi:".spec_bytes();
    if has_at(k, 0, a) {
        d + k.subrange(a.len() as int, k.len() as int)
    } else if has_at(k, 0, b) {
        d + k.subrange(b.len() as int, k.len() as int)
    } else if has_at(k, 0, c) {
        d + k.subrange(c.len() as int, k.len() as int)
    } else if has_at(k, 0, "10.".spec_bytes()) && exists|m: int|
        0 <= m < k.len() && #[trigger] k[m] == SLASH {
        d + k
    } else {
        k
    }
}

/// `doi:` followed by the bytes of `key` from `from` on.
fn doi_from(key: &str, from: usize) -> (r: String)
    requires
        from <= key.spec_bytes().len(),
        boundary(key.spec_bytes(), from as int),
    ensures
        owned(r) == "doi:".spec_bytes() + key.spec_bytes().subrange(
            from as int,
            key.spec_bytes().len() as int,
        ),
{
    let b = key.as_bytes();
    let d = "doi:".as_bytes();
    let mut v: Vec<u8> = Vec::new();
    push_range(&mut v, d, 0, d.len());
    push_range(&mut v, b, from, b.len());
    proof {
        assert(d@.subrange(0, d@.len() as int) =~= d@);
        crate::text::lemma_slice_valid(b@, from as int, b@.len() as int);
        assert(valid_utf8(d@));
        vstd::utf8::valid_utf8_concat(d@, b@.subrange(from as int, b@.len() as int));
    }
    string_of(v)
}

/// `@https://doi.org/…` is sugar for `@doi:…`; a bare DOI (`10.<digits>/…`,
/// only reachable through the deprecated citation forms) takes the `doi:`
/// prefix too.
pub fn doi_key(key: &str) -> (r: String)
    ensures
        owned(r) == doi_spec(key.spec_bytes()),
{
    let b = key.as_bytes();
    let a = "https://doi.org/".as_bytes();
    if starts_at(b, 0, a) {
        proof {
            assert(b@ =~= a@ + b@.subrange(a@.len() as int, b@.len() as int));
            crate::text::lemma_prefix_boundary(a@, b@.subrange(a@.len() as int, b@.len() as int));
        }
        return doi_from(key, a.len());
    }
    let h = "http://doi.org/".as_bytes();
    if starts_at(b, 0, h) {
        proof {
            assert(b@ =~= h@ + b@.subrange(h@.len() as int, b@.len() as int));
            crate::text::lemma_prefix_boundary(h@, b@.subrange(h@.len() as int, b@.len() as int));
        }
        return doi_from(key, h.len());
    }
    let x = "https://dx.doi.org/".as_bytes();
    if starts_at(b, 0, x) {
        proof {
            assert(b@ =~= x@ + b@.subrange(x@.len() as int, b@.len() as int));
            crate::text::lemma_prefix_boundary(x@, b@.subrange(x@.len() as int, b@.len() as int));
        }
        return doi_from(key, x.len());
    }
    let slash = find_byte(b, 0, b.len(), SLASH) < b.len();
    if starts_at(b, 0, "10.".as_bytes()) && slash {
        return doi_from(key, 0);
    }
    proof {
        if !slash {
            assert(!exists|m: int| 0 <= m < b@.len() && #[trigger] b@[m] == SLASH);
        }
    }
    String::from_str(key)
}

// ---------------------------------------------------------------------------
// Escapes of literal source text
// ---------------------------------------------------------------------------

/// Whether a byte is ASCII punctuation.
pub fn is_punct(x: u8) -> (r: bool)
    ensures
        r == punct(x),
{
    (0x21 <= x && x <= 0x2f) || (0x3a <= x && x <= 0x40) || (0x5b <= x && x <= 0x60) || (0x7b
        <= x && x <= 0x7e)
}

/// `s` with every backslash that escapes ASCII punctuation dropped, the
/// punctuation kept.
pub open spec fn unescaped(s: Seq<u8>) -> Seq<u8>
    decreases s.len(),
{
    if s.len() == 0 {
        seq![]
    } else if s.len() >= 2 && s[0] == BSL && punct(s[1]) {
        seq![s[1]] + unescaped(s.subrange(2, s.len() as int))
    } else {
        seq![s[0]] + unescaped(s.subrange(1, s.len() as int))
    }
}

/// Source text with its backslash escapes decoded (`\+` gives `+`): the
/// text CommonMark gives for a construct the tokenizer took raw when it
/// is shown as literal text.
pub fn decode_escapes(source: &str) -> (r: String)
    ensures
        owned(r) == unescaped(source.spec_bytes()),
{
    let b = source.as_bytes();
    let n = b.len();
    let mut out: Vec<u8> = Vec::new();
    let mut last: usize = 0;
    let mut i: usize = 0;
    proof {
        vstd::utf8::is_char_boundary_start_end_of_seq(b@);
        assert(b@.subrange(0, n as int) =~= b@);
        assert(valid_utf8(Seq::<u8>::empty())) by {
            reveal_with_fuel(valid_utf8, 1);
        }
    }
    while i < n
        invariant
            b@ == source.spec_bytes(),
            n == b@.len(),
            last <= i <= n,
            boundary(b@, last as int),
            valid_utf8(b@),
            valid_utf8(out@),
            out@ + b@.subrange(last as int, i as int) + unescaped(b@.subrange(i as int, n as int))
                == unescaped(b@),
        decreases n - i,
    {
        let ghost rest = b@.subrange(i as int, n as int);
        if b[i] == BSL && i + 1 < n && is_punct(b[i + 1]) {
            let ghost before = out@;
            let ghost l0 = last as int;
            let ghost i0 = i as int;
            proof {
                crate::text::lemma_ascii_boundaries(b@);
                crate::text::lemma_slice_valid(b@, last as int, i as int);
                vstd::utf8::valid_utf8_concat(out@, b@.subrange(last as int, i as int));
                assert(rest.subrange(2, rest.len() as int) =~= b@.subrange(i + 2, n as int));
                assert(b@.subrange(i + 1, i + 2) =~= seq![b@[i + 1]]);
                lemma_after_ascii(b@, i + 1);
            }
            push_range(&mut out, b, last, i);
            last = i + 1;
            i = i + 2;
            proof {
                assert(out@ == before + b@.subrange(l0, i0));
                assert(unescaped(rest) == seq![b@[i0 + 1]] + unescaped(b@.subrange(i0 + 2, n as int)));
                assert(out@ + b@.subrange(last as int, i as int) + unescaped(b@.subrange(i as int, n as int))
                    =~= before + b@.subrange(l0, i0) + unescaped(rest));
            }
        } else {
            proof {
                assert(rest.subrange(1, rest.len() as int) =~= b@.subrange(i + 1, n as int));
                assert(b@.subrange(last as int, i + 1) =~= b@.subrange(last as int, i as int).push(b@[i as int]));
                assert(out@ + b@.subrange(last as int, i + 1) + unescaped(b@.subrange(i + 1, n as int))
                    =~= out@ + b@.subrange(last as int, i as int) + unescaped(rest));
            }
            i = i + 1;
        }
    }
    proof {
        crate::text::lemma_slice_valid(b@, last as int, n as int);
        vstd::utf8::valid_utf8_concat(out@, b@.subrange(last as int, n as int));
        assert(b@.subrange(n as int, n as int) =~= Seq::<u8>::empty());
    }
    push_range(&mut out, b, last, n);
    proof {
        assert(out@ =~= unescaped(b@));
    }
    string_of(out)
}

// ---------------------------------------------------------------------------
// Brace groups
// ---------------------------------------------------------------------------

/// What a brace group `{…}` is.
#[derive(Debug, PartialEq)]
pub enum BraceKind {
    /// `{{ a.b }}`: the dotted path.
    Moustache(Vec<String>),
    /// An attribute list.
    Attrs(crate::attrs::Attrs),
    /// A role head.
    Role(crate::head::RoleHead),
    /// Anything else, kept as text.
    Literal,
}

/// The pieces of `s[i..e]` between dots, as `str::split('.')` yields
/// them.
pub open spec fn dot_pieces(s: Seq<u8>, i: int, e: int) -> Seq<Seq<u8>>
    decreases e - i,
{
    let d = find_from(s, i, e, DOT);
    if i >= e || d >= e {
        seq![s.subrange(i, e)]
    } else {
        proof {
            lemma_find_from(s, i, e, DOT);
        }
        seq![s.subrange(i, d)] + dot_pieces(s, d + 1, e)
    }
}

/// Whether every piece of a dotted path is a non-empty run of
/// identifier bytes.
pub open spec fn path_ok(parts: Seq<Seq<u8>>) -> bool {
    forall|j: int|
        0 <= j < parts.len() ==> (#[trigger] parts[j]).len() > 0 && forall|k: int|
            0 <= k < parts[j].len() ==> crate::scan::ident_byte(#[trigger] parts[j][k])
}

/// How a brace group is read: a moustache is a dotted path of
/// identifiers, its blanks trimmed; any other group is an attribute list
/// when it reads as one, else a role head, else literal text.
pub enum BraceModel {
    Moustache(Seq<Seq<u8>>),
    Attrs(crate::attrs::AttrsModel),
    Role(crate::head::RoleHeadModel),
    Literal,
}

/// The reading of a brace group with text `v`.
pub open spec fn brace_spec(v: Seq<u8>, moustache: bool) -> BraceModel {
    let t0 = crate::text::trim_start(v, 0, v.len() as int);
    let t1 = crate::text::trim_end(v, t0, v.len() as int);
    let parts = dot_pieces(v, t0, t1);
    if moustache {
        if t0 < t1 && path_ok(parts) {
            BraceModel::Moustache(parts)
        } else {
            BraceModel::Literal
        }
    } else if crate::scan::attrs_at(seq![LBRACE] + v + seq![RBRACE], 0) {
        match crate::head::parse_attrs_spec(v) {
            Some(a) => BraceModel::Attrs(a),
            None => BraceModel::Literal,
        }
    } else {
        match crate::head::parse_role_head_spec(v) {
            Some(h) => BraceModel::Role(h),
            None => BraceModel::Literal,
        }
    }
}

/// The model of a brace kind.
pub open spec fn brace_model(k: BraceKind) -> BraceModel {
    match k {
        BraceKind::Moustache(v) => BraceModel::Moustache(crate::attrs::owned_seq(v@)),
        BraceKind::Attrs(a) => BraceModel::Attrs(a@),
        BraceKind::Role(h) => BraceModel::Role(h@),
        BraceKind::Literal => BraceModel::Literal,
    }
}

/// The dotted path of a moustache, `None` unless every piece is a
/// non-empty run of identifier bytes.
fn moustache_path(value: &str, t0: usize, t1: usize) -> (r: Option<Vec<String>>)
    requires
        t0 < t1 <= value.spec_bytes().len(),
        boundary(value.spec_bytes(), t0 as int),
        boundary(value.spec_bytes(), t1 as int),
    ensures
        match r {
            Some(v) => path_ok(dot_pieces(value.spec_bytes(), t0 as int, t1 as int)) && crate::attrs::owned_seq(
                v@,
            ) == dot_pieces(value.spec_bytes(), t0 as int, t1 as int),
            None => !path_ok(dot_pieces(value.spec_bytes(), t0 as int, t1 as int)),
        },
{
    let b = value.as_bytes();
    let mut out: Vec<String> = Vec::new();
    let mut i = t0;
    let ghost all = dot_pieces(b@, t0 as int, t1 as int);
    loop
        invariant
            b@ == value.spec_bytes(),
            t0 <= i <= t1 <= b@.len(),
            boundary(b@, i as int),
            boundary(b@, t1 as int),
            all == dot_pieces(b@, t0 as int, t1 as int),
            all == crate::attrs::owned_seq(out@) + dot_pieces(b@, i as int, t1 as int),
            path_ok(crate::attrs::owned_seq(out@)),
        decreases t1 - i,
    {
        let d = find_byte(b, i, t1, DOT);
        proof {
            lemma_find_from(b@, i as int, t1 as int, DOT);
            crate::text::lemma_ascii_boundaries(b@);
        }
        if !crate::head::all_ident(b, i, d) {
            proof {
                let piece = b@.subrange(i as int, d as int);
                let m = choose|m: int| i <= m < d && !crate::scan::ident_byte(#[trigger] b@[m]);
                assert(piece[m - i] == b@[m]);
                assert(dot_pieces(b@, i as int, t1 as int)[0] == piece);
                assert(all[crate::attrs::owned_seq(out@).len() as int] == piece);
            }
            return None;
        }
        if d == i {
            proof {
                assert(dot_pieces(b@, i as int, t1 as int)[0].len() == 0);
                assert(all[crate::attrs::owned_seq(out@).len() as int].len() == 0);
            }
            return None;
        }
        let piece = substring(value, i, d);
        let ghost before = crate::attrs::owned_seq(out@);
        out.push(piece);
        proof {
            assert(crate::attrs::owned_seq(out@) =~= before.push(b@.subrange(i as int, d as int)));
            let p = b@.subrange(i as int, d as int);
            assert forall|m: int| 0 <= m < p.len() implies crate::scan::ident_byte(#[trigger] p[m]) by {
                assert(p[m] == b@[i + m]);
            }
        }
        if d >= t1 {
            proof {
                assert(dot_pieces(b@, i as int, t1 as int) =~= seq![b@.subrange(i as int, t1 as int)]);
                assert(all =~= crate::attrs::owned_seq(out@));
            }
            return Some(out);
        }
        proof {
            assert(dot_pieces(b@, i as int, t1 as int) == seq![b@.subrange(i as int, d as int)] + dot_pieces(b@, d + 1, t1 as int));
            assert(all =~= crate::attrs::owned_seq(out@) + dot_pieces(b@, d + 1, t1 as int));
            lemma_after_ascii(b@, d + 1);
        }
        i = d + 1;
    }
}

/// Reads a brace group: a moustache `{{ a.b }}` as its dotted path, any
/// other group as an attribute list when it reads as one, else as a role
/// head; literal text when neither reading holds.
pub fn classify(value: &str, moustache: bool) -> (r: BraceKind)
    requires
        value.spec_bytes().len() < 0xffff_fff0,
    ensures
        brace_model(r) == brace_spec(value.spec_bytes(), moustache),
{
    let b = value.as_bytes();
    let n = b.len();
    if moustache {
        proof {
            vstd::utf8::is_char_boundary_start_end_of_seq(b@);
            crate::text::lemma_trim_start(b@, 0, n as int);
        }
        let t0 = skip_ws_at(b, n);
        proof {
            crate::text::lemma_trim_end(b@, t0 as int, n as int);
        }
        let t1 = crate::text::back_ws(b, t0, n);
        if t0 >= t1 {
            return BraceKind::Literal;
        }
        return match moustache_path(value, t0, t1) {
            Some(v) => BraceKind::Moustache(v),
            None => BraceKind::Literal,
        };
    }
    let mut probe: Vec<u8> = Vec::new();
    probe.push(LBRACE);
    push_range(&mut probe, b, 0, n);
    probe.push(RBRACE);
    proof {
        assert(b@.subrange(0, n as int) =~= b@);
        assert(probe@ =~= seq![LBRACE] + b@ + seq![RBRACE]);
    }
    if crate::scan::looks_like_attributes(probe.as_slice(), 0) {
        match crate::head::parse_attrs(value) {
            Some(a) => BraceKind::Attrs(a),
            None => BraceKind::Literal,
        }
    } else {
        match crate::head::parse_role_head(value) {
            Some(h) => BraceKind::Role(h),
            None => BraceKind::Literal,
        }
    }
}

/// `trim_start` of the whole of `b`.
fn skip_ws_at(b: &[u8], n: usize) -> (r: usize)
    requires
        n == b@.len(),
    ensures
        r == crate::text::trim_start(b@, 0, n as int),
        r <= n,
{
    crate::text::skip_ws(b, 0, n)
}

} // verus!
