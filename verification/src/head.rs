//! Small parsers for the heads the tokenizer keeps raw: attribute lists,
//! role heads, reference items, fence info strings, container and
//! admonition info.

use vstd::prelude::*;
use vstd::string::*;
use vstd::utf8::*;
use crate::attrs::{empty_model, owned_pairs, owned_seq, Attrs, AttrsModel};
use crate::scan::{ident_byte, ident_start, is_ident_byte, is_ident_start};
use crate::node::{item_models, RefItem, RefItemModel};
use crate::span::{FileId, Span, SubSpan};
use crate::text::{
    boundary, lemma_after_ascii, lemma_ascii_valid, lemma_slice_valid, owned, push_range,
    skip_ws, space, string_of, substring, trim_start, is_space, find_byte, find_from, BSL, COLON, DOT,
    EQ, HASH, QUOTE, esc, escape_into, join, join_into, views, ws_len, ws_at, LBRACE, RBRACE,
    SPACE, alnum, digit, back_ws, trim_end, last_ws, rfind_ws, words, push_words, drop_byte,
    drop_byte_into, lemma_trim_start, lemma_trim_end, lemma_find_from, AT, COMMA, DASH, PLUS, SEMI,
    SLASH, UNDERSCORE, range_eq,
};

verus! {

broadcast use vstd::utf8::encode_utf8_valid_utf8, vstd::utf8::valid_utf8_concat;

// ---------------------------------------------------------------------------
// Tokens
// ---------------------------------------------------------------------------

/// The first position from `i` on that does not hold ASCII whitespace.
pub open spec fn skip_blank(s: Seq<u8>, i: int) -> int
    decreases s.len() - i,
{
    if 0 <= i < s.len() && space(s[i]) {
        skip_blank(s, i + 1)
    } else {
        i
    }
}

/// Where a token that reached `i`, inside quotes or not, ends: at ASCII
/// whitespace outside quotes, or at the end; inside quotes a backslash
/// protects the next byte.
pub open spec fn token_end(s: Seq<u8>, i: int, quoted: bool) -> int
    decreases s.len() - i,
{
    if i < 0 || i >= s.len() || (!quoted && space(s[i])) {
        i
    } else if quoted && s[i] == BSL && i + 1 < s.len() {
        token_end(s, i + 2, quoted)
    } else if s[i] == QUOTE {
        token_end(s, i + 1, !quoted)
    } else {
        token_end(s, i + 1, quoted)
    }
}

/// The whitespace-separated tokens of `s` from `i` on, as byte ranges,
/// `"…"` values kept whole.
pub open spec fn tokens_from(s: Seq<u8>, i: int) -> Seq<(int, int)>
    decreases s.len() - i,
{
    let j = skip_blank(s, i);
    let e = token_end(s, j, false);
    if i < 0 || j >= s.len() || e <= i || e > s.len() {
        seq![]
    } else {
        seq![(j, e)] + tokens_from(s, e)
    }
}

/// Byte ranges as integer pairs.
pub open spec fn pairs(v: Seq<(usize, usize)>) -> Seq<(int, int)> {
    v.map_values(|p: (usize, usize)| (p.0 as int, p.1 as int))
}

proof fn lemma_skip_blank(s: Seq<u8>, i: int)
    requires
        0 <= i <= s.len(),
    ensures
        i <= skip_blank(s, i) <= s.len(),
        skip_blank(s, i) < s.len() ==> !space(s[skip_blank(s, i)]),
        skip_blank(s, i) > i ==> space(s[skip_blank(s, i) - 1]),
    decreases s.len() - i,
{
    if i < s.len() && space(s[i]) {
        lemma_skip_blank(s, i + 1);
    }
}

proof fn lemma_token_end(s: Seq<u8>, i: int, quoted: bool)
    requires
        0 <= i <= s.len(),
    ensures
        i <= token_end(s, i, quoted) <= s.len(),
        token_end(s, i, quoted) < s.len() ==> space(s[token_end(s, i, quoted)]),
        i < s.len() && !space(s[i]) ==> token_end(s, i, quoted) > i,
    decreases s.len() - i,
{
    if i >= s.len() || (!quoted && space(s[i])) {
    } else if quoted && s[i] == BSL && i + 1 < s.len() {
        lemma_token_end(s, i + 2, quoted);
    } else if s[i] == QUOTE {
        lemma_token_end(s, i + 1, !quoted);
    } else {
        lemma_token_end(s, i + 1, quoted);
    }
}

/// Splits `s` from `start` into whitespace-separated tokens, keeping
/// `"…"` values whole; inside quotes a backslash protects the next byte.
/// Each token is a byte range of `s`.
fn tokens(s: &[u8], start: usize) -> (r: Vec<(usize, usize)>)
    requires
        start <= s@.len(),
    ensures
        pairs(r@) == tokens_from(s@, start as int),
        forall|k: int|
            0 <= k < r@.len() ==> start <= #[trigger] r@[k].0 < r@[k].1 <= s@.len() && (
            r@[k].1 == s@.len() || space(s@[r@[k].1 as int])) && (r@[k].0 == start || space(
                s@[r@[k].0 - 1],
            )),
{
    let mut out: Vec<(usize, usize)> = Vec::new();
    let mut i = start;
    while i < s.len()
        invariant
            start <= i <= s@.len(),
            tokens_from(s@, start as int) == pairs(out@) + tokens_from(s@, i as int),
            forall|k: int|
                0 <= k < out@.len() ==> start <= #[trigger] out@[k].0 < out@[k].1 <= i && (
                out@[k].1 == s@.len() || space(s@[out@[k].1 as int])) && (out@[k].0 == start
                    || space(s@[out@[k].0 - 1])),
            i == start || i == s@.len() || space(s@[i as int]),
        decreases s@.len() - i,
    {
        let ghost i0 = i;
        let mut j = i;
        while j < s.len() && is_space(s[j])
            invariant
                i0 <= j <= s@.len(),
                skip_blank(s@, j as int) == skip_blank(s@, i0 as int),
                j > i0 ==> space(s@[j - 1]),
            decreases s@.len() - j,
        {
            j += 1;
        }
        proof {
            lemma_skip_blank(s@, i0 as int);
        }
        if j >= s.len() {
            proof {
                assert(tokens_from(s@, i0 as int) =~= seq![]);
                assert(pairs(out@) + tokens_from(s@, j as int) =~= pairs(out@));
            }
            i = j;
        } else {
            let st = j;
            let mut k = j;
            let mut quoted = false;
            while k < s.len() && (quoted || !is_space(s[k]))
                invariant
                    st <= k <= s@.len(),
                    token_end(s@, st as int, false) == token_end(s@, k as int, quoted),
                decreases s@.len() - k,
            {
                if quoted && s[k] == BSL && k + 1 < s.len() {
                    k += 2;
                } else {
                    if s[k] == QUOTE {
                        quoted = !quoted;
                    }
                    k += 1;
                }
            }
            proof {
                lemma_token_end(s@, st as int, false);
                assert(tokens_from(s@, i0 as int) =~= seq![(st as int, k as int)] + tokens_from(
                    s@,
                    k as int,
                ));
            }
            let ghost before = out@;
            out.push((st, k));
            proof {
                assert(pairs(out@) =~= pairs(before) + seq![(st as int, k as int)]);
            }
            i = k;
        }
    }
    proof {
        assert(tokens_from(s@, i as int) =~= seq![]);
        assert(pairs(out@) + seq![] =~= pairs(out@));
    }
    out
}


// ---------------------------------------------------------------------------
// Values
// ---------------------------------------------------------------------------

/// The text of a quoted value with `\"` and `\\` decoded; any other
/// backslash stays.
pub open spec fn unescape(v: Seq<u8>) -> Seq<u8>
    decreases v.len(),
{
    if v.len() == 0 {
        seq![]
    } else if v.len() >= 2 && v[0] == BSL && (v[1] == QUOTE || v[1] == BSL) {
        seq![v[1]] + unescape(v.subrange(2, v.len() as int))
    } else {
        seq![v[0]] + unescape(v.subrange(1, v.len() as int))
    }
}

/// A quoted value without its quotes, escapes decoded; a bare value as is.
pub open spec fn unquote_spec(v: Seq<u8>) -> Seq<u8> {
    if v.len() >= 2 && v[0] == QUOTE && v[v.len() - 1] == QUOTE {
        unescape(v.subrange(1, v.len() - 1))
    } else {
        v
    }
}

proof fn lemma_unescape_step(s: Seq<u8>, i: int, e: int)
    requires
        0 <= i < e <= s.len(),
    ensures
        (i + 1 < e && s[i] == BSL && (s[i + 1] == QUOTE || s[i + 1] == BSL)) ==> unescape(
            s.subrange(i, e),
        ) == seq![s[i + 1]] + unescape(s.subrange(i + 2, e)),
        !(i + 1 < e && s[i] == BSL && (s[i + 1] == QUOTE || s[i + 1] == BSL)) ==> unescape(
            s.subrange(i, e),
        ) == seq![s[i]] + unescape(s.subrange(i + 1, e)),
{
    let v = s.subrange(i, e);
    if i + 2 <= e {
        assert(v.subrange(2, v.len() as int) =~= s.subrange(i + 2, e));
    }
    assert(v.subrange(1, v.len() as int) =~= s.subrange(i + 1, e));
}

/// Decodes `\"` and `\\` in `s[a..e]`.
fn unescape_range(s: &[u8], a: usize, e: usize) -> (r: Vec<u8>)
    requires
        a <= e <= s@.len(),
        valid_utf8(s@),
        boundary(s@, a as int),
        boundary(s@, e as int),
    ensures
        r@ == unescape(s@.subrange(a as int, e as int)),
        valid_utf8(r@),
{
    let mut out: Vec<u8> = Vec::new();
    let mut run = a;
    let mut i = a;
    while i < e
        invariant
            a <= run <= i <= e <= s@.len(),
            valid_utf8(s@),
            boundary(s@, run as int),
            boundary(s@, e as int),
            valid_utf8(out@),
            out@ + s@.subrange(run as int, i as int) + unescape(s@.subrange(i as int, e as int))
                == unescape(s@.subrange(a as int, e as int)),
        decreases e - i,
    {
        proof {
            lemma_unescape_step(s@, i as int, e as int);
        }
        if i + 1 < e && s[i] == BSL && (s[i + 1] == QUOTE || s[i + 1] == BSL) {
            let ghost before = out@;
            push_range(&mut out, s, run, i);
            out.push(s[i + 1]);
            proof {
                lemma_slice_valid(s@, run as int, i as int);
                lemma_ascii_valid(seq![s@[i + 1]]);
                valid_utf8_concat(before, s@.subrange(run as int, i as int));
                valid_utf8_concat(before + s@.subrange(run as int, i as int), seq![s@[i + 1]]);
                assert(out@ =~= (before + s@.subrange(run as int, i as int)) + seq![s@[i + 1]]);
                lemma_after_ascii(s@, i + 2);
                let rest = unescape(s@.subrange(i + 2, e as int));
                assert(s@.subrange(i as int + 2, i as int + 2) =~= seq![]);
                assert(out@ + s@.subrange(i + 2, i + 2) + rest =~= before + s@.subrange(
                    run as int,
                    i as int,
                ) + (seq![s@[i + 1]] + rest));
            }
            i += 2;
            run = i;
        } else {
            proof {
                let rest = unescape(s@.subrange(i + 1, e as int));
                assert(s@.subrange(run as int, i + 1) =~= s@.subrange(run as int, i as int)
                    + seq![s@[i as int]]);
                assert(out@ + s@.subrange(run as int, i + 1) + rest =~= out@ + s@.subrange(
                    run as int,
                    i as int,
                ) + (seq![s@[i as int]] + rest));
            }
            i += 1;
        }
    }
    let ghost before = out@;
    push_range(&mut out, s, run, e);
    proof {
        lemma_slice_valid(s@, run as int, e as int);
        valid_utf8_concat(before, s@.subrange(run as int, e as int));
        assert(s@.subrange(e as int, e as int) =~= seq![]);
        assert(unescape(s@.subrange(e as int, e as int)) =~= seq![]);
        assert(before + s@.subrange(run as int, e as int) + seq![] =~= out@);
    }
    out
}

/// A quoted value without its quotes, `\"` and `\\` decoded; a bare
/// value as is.
fn unquote(s: &[u8], a: usize, b: usize) -> (r: Vec<u8>)
    requires
        a <= b <= s@.len(),
        valid_utf8(s@),
        boundary(s@, a as int),
        boundary(s@, b as int),
    ensures
        r@ == unquote_spec(s@.subrange(a as int, b as int)),
        valid_utf8(r@),
{
    proof {
        assert(s@.subrange(a as int, b as int).len() == b - a);
    }
    if b - a >= 2 && s[a] == QUOTE && s[b - 1] == QUOTE {
        proof {
            lemma_after_ascii(s@, a + 1);
            assert(s@.subrange(a as int, b as int).subrange(1, b - a - 1) =~= s@.subrange(
                a + 1,
                b - 1,
            ));
        }
        unescape_range(s, a + 1, b - 1)
    } else {
        let mut out: Vec<u8> = Vec::new();
        push_range(&mut out, s, a, b);
        proof {
            lemma_slice_valid(s@, a as int, b as int);
            assert(out@ =~= s@.subrange(a as int, b as int));
        }
        out
    }
}


// ---------------------------------------------------------------------------
// Identifiers and keys
// ---------------------------------------------------------------------------

/// `[A-Za-z0-9_-]+`.
pub open spec fn key_seq(t: Seq<u8>) -> bool {
    t.len() > 0 && forall|k: int| 0 <= k < t.len() ==> ident_byte(#[trigger] t[k])
}

/// `[A-Za-z][A-Za-z0-9_-]*`.
pub open spec fn ident_seq(t: Seq<u8>) -> bool {
    t.len() > 0 && ident_start(t[0]) && forall|k: int| 1 <= k < t.len() ==> ident_byte(#[trigger] t[k])
}

/// A byte of an id: an identifier byte, `:` or `.`.
pub open spec fn id_byte(b: u8) -> bool {
    ident_byte(b) || b == COLON || b == DOT
}

/// Whether every byte of `s[a..b]` is an identifier byte.
pub(crate) fn all_ident(s: &[u8], a: usize, b: usize) -> (r: bool)
    requires
        a <= b <= s@.len(),
    ensures
        r == forall|k: int| a <= k < b ==> ident_byte(#[trigger] s@[k]),
{
    let mut k = a;
    while k < b
        invariant
            a <= k <= b <= s@.len(),
            forall|m: int| a <= m < k ==> ident_byte(#[trigger] s@[m]),
        decreases b - k,
    {
        if !is_ident_byte(s[k]) {
            return false;
        }
        k += 1;
    }
    true
}

/// Whether every byte of `s[a..b]` is an id byte.
fn all_id(s: &[u8], a: usize, b: usize) -> (r: bool)
    requires
        a <= b <= s@.len(),
    ensures
        r == forall|k: int| a <= k < b ==> id_byte(#[trigger] s@[k]),
{
    let mut k = a;
    while k < b
        invariant
            a <= k <= b <= s@.len(),
            forall|m: int| a <= m < k ==> id_byte(#[trigger] s@[m]),
        decreases b - k,
    {
        if !(is_ident_byte(s[k]) || s[k] == COLON || s[k] == DOT) {
            return false;
        }
        k += 1;
    }
    true
}

/// Whether `s[a..b]` is a key: `[A-Za-z0-9_-]+`.
fn is_key(s: &[u8], a: usize, b: usize) -> (r: bool)
    requires
        a <= b <= s@.len(),
    ensures
        r == key_seq(s@.subrange(a as int, b as int)),
{
    let r = b > a && all_ident(s, a, b);
    proof {
        let t = s@.subrange(a as int, b as int);
        if r {
            assert forall|k: int| 0 <= k < t.len() implies ident_byte(#[trigger] t[k]) by {
                assert(t[k] == s@[a + k]);
            }
        } else if b > a {
            let m = choose|m: int| a <= m < b && !ident_byte(#[trigger] s@[m]);
            assert(t[m - a] == s@[m]);
        }
    }
    r
}

/// Whether `s[a..b]` is an identifier: `[A-Za-z][A-Za-z0-9_-]*`.
pub(crate) fn is_ident(s: &[u8], a: usize, b: usize) -> (r: bool)
    requires
        a <= b <= s@.len(),
    ensures
        r == ident_seq(s@.subrange(a as int, b as int)),
{
    let r = b > a && is_ident_start(s[a]) && all_ident(s, a + 1, b);
    proof {
        let t = s@.subrange(a as int, b as int);
        if r {
            assert forall|k: int| 1 <= k < t.len() implies ident_byte(#[trigger] t[k]) by {
                assert(t[k] == s@[a + k]);
            }
        } else if b > a && ident_start(s@[a as int]) {
            let m = choose|m: int| a + 1 <= m < b && !ident_byte(#[trigger] s@[m]);
            assert(t[m - a] == s@[m]);
        }
    }
    r
}

/// `key=value` in `s[a..b]`: a key before the first `=`, a value after
/// it, not empty, unquoted.
pub open spec fn key_value_spec(s: Seq<u8>, a: int, b: int) -> Option<(Seq<u8>, Seq<u8>)> {
    let e = find_from(s, a, b, EQ);
    if e >= b || !key_seq(s.subrange(a, e)) || e + 1 >= b {
        None
    } else {
        Some((s.subrange(a, e), unquote_spec(s.subrange(e + 1, b))))
    }
}

/// `key=value` with a quoted or bare value, in `s[a..b]`.
fn key_value(s: &str, a: usize, b: usize) -> (r: Option<(String, String)>)
    requires
        a <= b <= s.spec_bytes().len(),
        boundary(s.spec_bytes(), a as int),
        boundary(s.spec_bytes(), b as int),
    ensures
        match r {
            Some(p) => key_value_spec(s.spec_bytes(), a as int, b as int) == Some(
                (owned(p.0), owned(p.1)),
            ),
            None => key_value_spec(s.spec_bytes(), a as int, b as int) is None,
        },
{
    let bytes = s.as_bytes();
    let e = find_byte(bytes, a, b, EQ);
    if e >= b || !is_key(bytes, a, e) || e + 1 >= b {
        return None;
    }
    proof {
        lemma_after_ascii(bytes@, e + 1);
    }
    let key = substring(s, a, e);
    let value = string_of(unquote(bytes, e + 1, b));
    Some((key, value))
}

// ---------------------------------------------------------------------------
// Attribute lists
// ---------------------------------------------------------------------------

/// Where the items of an attribute list start: after the deprecated
/// leading colon (`{: .cls}`), blanks before it allowed, else at 0.
pub open spec fn attrs_start(s: Seq<u8>) -> int {
    let t = trim_start(s, 0, s.len() as int);
    if t < s.len() && s[t] == COLON {
        t + 1
    } else {
        0
    }
}

/// Whether the inside of an attribute list starts with the deprecated
/// colon, blanks before it allowed.
pub open spec fn has_attr_colon_spec(s: Seq<u8>) -> bool {
    let t = trim_start(s, 0, s.len() as int);
    t < s.len() && s[t] == COLON
}

/// One item of an attribute list added to `acc`: `#id`, `.class` or
/// `key=value`; `None` when the token is none of them.
pub open spec fn attr_step(s: Seq<u8>, t: (int, int), acc: AttrsModel) -> Option<AttrsModel> {
    let a = t.0;
    let b = t.1;
    if s[a] == HASH {
        if b - a >= 2 && forall|k: int| a + 1 <= k < b ==> id_byte(#[trigger] s[k]) {
            Some(
                AttrsModel {
                    id: Some(s.subrange(a + 1, b)),
                    id_span: Some(
                        SubSpan(Span { file: FileId(0), start: (a + 1) as u32, end: b as u32 }),
                    ),
                    classes: acc.classes,
                    kv: acc.kv,
                },
            )
        } else {
            None
        }
    } else if s[a] == DOT {
        if key_seq(s.subrange(a + 1, b)) {
            Some(
                AttrsModel {
                    id: acc.id,
                    id_span: acc.id_span,
                    classes: acc.classes.push(s.subrange(a + 1, b)),
                    kv: acc.kv,
                },
            )
        } else {
            None
        }
    } else {
        match key_value_spec(s, a, b) {
            Some(p) => Some(
                AttrsModel { id: acc.id, id_span: acc.id_span, classes: acc.classes, kv: acc.kv.push(p) },
            ),
            None => None,
        }
    }
}

/// The first `n` tokens of `list` read as an attribute list.
pub open spec fn attrs_fold(s: Seq<u8>, list: Seq<(int, int)>, n: int) -> Option<AttrsModel>
    decreases n,
{
    if n <= 0 {
        Some(empty_model())
    } else {
        match attrs_fold(s, list, n - 1) {
            Some(acc) => attr_step(s, list[n - 1], acc),
            None => None,
        }
    }
}

/// The attribute list `s` spells, when every token is an attribute.
pub open spec fn parse_attrs_spec(s: Seq<u8>) -> Option<AttrsModel> {
    let list = tokens_from(s, attrs_start(s));
    if list.len() == 0 {
        None
    } else {
        attrs_fold(s, list, list.len() as int)
    }
}

proof fn lemma_fold_none(s: Seq<u8>, list: Seq<(int, int)>, i: int, n: int)
    requires
        0 <= i <= n,
        attrs_fold(s, list, i) is None,
    ensures
        attrs_fold(s, list, n) is None,
    decreases n - i,
{
    if i < n {
        lemma_fold_none(s, list, i, n - 1);
    }
}

/// Whether the inside of an attribute list starts with the deprecated
/// Python-Markdown colon (`{: .cls}`).
pub fn has_attr_colon(s: &str) -> (r: bool)
    ensures
        r == has_attr_colon_spec(s.spec_bytes()),
{
    let b = s.as_bytes();
    let t = skip_ws(b, 0, b.len());
    t < b.len() && b[t] == COLON
}

/// Parses the inside of an attribute list (`#id .class key=value`), with
/// or without the deprecated leading colon. `None` when a token is not an
/// attribute: there are no bare-word attributes. `id_span` is relative to
/// `s`.
pub fn parse_attrs(s: &str) -> (r: Option<Attrs>)
    requires
        s.spec_bytes().len() < 0xffff_ffff,
    ensures
        match r {
            Some(a) => parse_attrs_spec(s.spec_bytes()) == Some(a@),
            None => parse_attrs_spec(s.spec_bytes()) is None,
        },
{
    let b = s.as_bytes();
    let len = b.len();
    let t = skip_ws(b, 0, len);
    let start = if t < len && b[t] == COLON {
        t + 1
    } else {
        0
    };
    let list = tokens(b, start);
    if list.len() == 0 {
        return None;
    }
    let ghost ps = pairs(list@);
    let mut attrs = Attrs::new();
    let mut i: usize = 0;
    while i < list.len()
        invariant
            b@ == s.spec_bytes(),
            len == b@.len(),
            len < 0xffff_ffff,
            start == attrs_start(b@),
            ps == pairs(list@),
            ps == tokens_from(b@, start as int),
            0 <= i <= list@.len(),
            attrs_fold(b@, ps, i as int) == Some(attrs@),
            forall|k: int|
                0 <= k < list@.len() ==> start <= #[trigger] list@[k].0 < list@[k].1 <= b@.len()
                    && (list@[k].1 == b@.len() || space(b@[list@[k].1 as int])) && (list@[k].0
                    == start || space(b@[list@[k].0 - 1])),
        decreases list@.len() - i,
    {
        let (a, e) = list[i];
        let ghost prev = attrs@;
        proof {
            assert(ps[i as int] == (a as int, e as int));
            if a == start && start > 0 {
                lemma_after_ascii(b@, start as int);
            } else if a > 0 {
                lemma_after_ascii(b@, a as int);
            }
            if b@[a as int] < 0x80 {
                lemma_after_ascii(b@, a + 1);
            }
            assert(boundary(b@, e as int));
        }
        if b[a] == HASH {
            if e - a < 2 || !all_id(b, a + 1, e) {
                proof {
                    lemma_fold_none(b@, ps, i + 1, list@.len() as int);
                }
                return None;
            }
            let id = substring(s, a + 1, e);
            attrs.id = Some(id);
            let st: u32 = (a + 1) as u32;
            attrs.id_span = Some(SubSpan::new(FileId(0), st, st + ((e - a - 1) as u32)));
            proof {
                assert(attrs@ =~= attr_step(b@, ps[i as int], prev)->Some_0);
            }
        } else if b[a] == DOT {
            if !is_key(b, a + 1, e) {
                proof {
                    lemma_fold_none(b@, ps, i + 1, list@.len() as int);
                }
                return None;
            }
            let class = substring(s, a + 1, e);
            attrs.classes.push(class);
            proof {
                assert(attrs@.classes =~= prev.classes.push(b@.subrange(a + 1, e as int)));
                assert(attrs@ =~= attr_step(b@, ps[i as int], prev)->Some_0);
            }
        } else {
            match key_value(s, a, e) {
                Some(p) => {
                    attrs.kv.push(p);
                    proof {
                        assert(attrs@.kv =~= prev.kv.push(key_value_spec(b@, a as int, e as int)->Some_0));
                        assert(attrs@ =~= attr_step(b@, ps[i as int], prev)->Some_0);
                    }
                },
                None => {
                    proof {
                        lemma_fold_none(b@, ps, i + 1, list@.len() as int);
                    }
                    return None;
                },
            }
        }
        i += 1;
    }
    Some(attrs)
}


/// Whether a value must be quoted to read back: empty, or holding
/// whitespace, `}`, `"`, `=` or a backslash.
pub open spec fn quote_needed(v: Seq<u8>) -> bool {
    v.len() == 0 || exists|k: int|
        #![trigger v[k]]
        0 <= k < v.len() && (ws_len(v, k) > 0 || v[k] == RBRACE || v[k] == QUOTE || v[k] == EQ
            || v[k] == BSL)
}

/// A value as an attribute list spells it: bare, or quoted with `\` and
/// `"` escaped.
pub open spec fn value_text(v: Seq<u8>) -> Seq<u8> {
    if quote_needed(v) {
        seq![QUOTE] + esc(v, seq![BSL, QUOTE]) + seq![QUOTE]
    } else {
        v
    }
}

/// The items of an attribute list as printed: `#id`, the classes, then
/// the pairs in order.
pub open spec fn attr_parts(m: AttrsModel) -> Seq<Seq<u8>> {
    (match m.id {
        Some(id) => seq![seq![HASH] + id],
        None => seq![],
    }) + m.classes.map_values(|c: Seq<u8>| seq![DOT] + c) + m.kv.map_values(
        |p: (Seq<u8>, Seq<u8>)| p.0 + seq![EQ] + value_text(p.1),
    )
}

/// The canonical text of an attribute list, braces included.
pub open spec fn attrs_text_spec(m: AttrsModel) -> Seq<u8> {
    seq![LBRACE] + join(attr_parts(m), seq![SPACE]) + seq![RBRACE]
}

/// Decoding runs over an escaped value and whatever follows it: the
/// escapes come out as the bytes they protect.
proof fn lemma_unescape_esc(p: Seq<u8>, y: Seq<u8>)
    ensures
        unescape(esc(p, seq![BSL, QUOTE]) + y) == p + unescape(y),
    decreases p.len(),
{
    let sp = seq![BSL, QUOTE];
    if p.len() == 0 {
        assert(esc(p, sp) + y =~= y);
        assert(p + unescape(y) =~= unescape(y));
    } else {
        let q = p.drop_last();
        let c = p.last();
        let special = c == BSL || c == QUOTE;
        assert(sp.contains(c) == special) by {
            if special {
                if c == BSL {
                    assert(sp[0] == c);
                } else {
                    assert(sp[1] == c);
                }
            }
        }
        let piece = if special {
            seq![BSL, c]
        } else {
            seq![c]
        };
        assert(esc(p, sp) == esc(q, sp) + piece);
        assert(esc(p, sp) + y =~= esc(q, sp) + (piece + y));
        lemma_unescape_esc(q, piece + y);
        let z = piece + y;
        if special {
            assert(z.subrange(2, z.len() as int) =~= y);
        } else {
            assert(z.subrange(1, z.len() as int) =~= y);
        }
        assert(unescape(z) == seq![c] + unescape(y));
        assert(q + (seq![c] + unescape(y)) =~= p + unescape(y));
    }
}

/// A value as an attribute list spells it reads back as the value:
/// `unquote` undoes `value_text`, whatever the value holds.
pub proof fn lemma_value_round_trip(v: Seq<u8>)
    ensures
        unquote_spec(value_text(v)) == v,
{
    if quote_needed(v) {
        let x = seq![QUOTE] + esc(v, seq![BSL, QUOTE]) + seq![QUOTE];
        lemma_unescape_esc(v, seq![]);
        assert(esc(v, seq![BSL, QUOTE]) + Seq::<u8>::empty() =~= esc(v, seq![BSL, QUOTE]));
        assert(v + unescape(Seq::<u8>::empty()) =~= v);
        assert(x.subrange(1, x.len() - 1) =~= esc(v, seq![BSL, QUOTE]));
    } else {
        assert(v.len() > 0);
        assert(!(ws_len(v, 0) > 0 || v[0] == RBRACE || v[0] == QUOTE || v[0] == EQ || v[0] == BSL));
    }
}

/// Whether `v` must be quoted.
fn needs_quote(v: &[u8]) -> (r: bool)
    ensures
        r == quote_needed(v@),
{
    if v.len() == 0 {
        return true;
    }
    let mut k: usize = 0;
    while k < v.len()
        invariant
            0 <= k <= v@.len(),
            forall|m: int|
                #![trigger v@[m]]
                0 <= m < k ==> !(ws_len(v@, m) > 0 || v@[m] == RBRACE || v@[m] == QUOTE
                    || v@[m] == EQ || v@[m] == BSL),
        decreases v@.len() - k,
    {
        let c = v[k];
        if ws_at(v, k) > 0 || c == RBRACE || c == QUOTE || c == EQ || c == BSL {
            return true;
        }
        k += 1;
    }
    false
}

/// Appends a value as an attribute list spells it.
fn push_value(out: &mut Vec<u8>, v: &[u8])
    ensures
        final(out)@ == old(out)@ + value_text(v@),
        valid_utf8(old(out)@) && valid_utf8(v@) ==> valid_utf8(final(out)@),
{
    if needs_quote(v) {
        let ghost start = out@;
        out.push(QUOTE);
        let sp: [u8; 2] = [BSL, QUOTE];
        proof {
            assert(sp@ =~= seq![BSL, QUOTE]);
            lemma_ascii_valid(seq![QUOTE]);
            if valid_utf8(start) {
                valid_utf8_concat(start, seq![QUOTE]);
            }
            assert(out@ =~= start + seq![QUOTE]);
        }
        escape_into(out, v, sp.as_slice());
        let ghost mid = out@;
        out.push(QUOTE);
        proof {
            if valid_utf8(mid) {
                valid_utf8_concat(mid, seq![QUOTE]);
            }
            assert(out@ =~= mid + seq![QUOTE]);
            assert(out@ =~= start + (seq![QUOTE] + esc(v@, seq![BSL, QUOTE]) + seq![QUOTE]));
        }
    } else {
        let ghost start = out@;
        push_range(out, v, 0, v.len());
        proof {
            assert(v@.subrange(0, v@.len() as int) =~= v@);
            if valid_utf8(start) && valid_utf8(v@) {
                valid_utf8_concat(start, v@);
            }
        }
    }
}

/// A byte followed by the bytes of a string.
fn tagged(tag: u8, s: &String) -> (r: Vec<u8>)
    requires
        tag < 0x80,
    ensures
        r@ == seq![tag] + owned(*s),
        valid_utf8(r@),
{
    let mut v: Vec<u8> = Vec::new();
    v.push(tag);
    let b = s.as_str().as_bytes();
    push_range(&mut v, b, 0, b.len());
    proof {
        assert(b@.subrange(0, b@.len() as int) =~= b@);
        lemma_ascii_valid(seq![tag]);
        assert(v@ =~= seq![tag] + b@);
        valid_utf8_concat(seq![tag], b@);
    }
    v
}

/// The canonical text of an attribute list, braces included: `#id`, then
/// the classes, then the keys in source order, a value quoted when it
/// holds whitespace, `}`, `"`, `=`, `\` or is empty.
pub fn attrs_text(attrs: &Attrs) -> (r: String)
    ensures
        owned(r) == attrs_text_spec(attrs@),
{
    let ghost m = attrs@;
    let ghost all = attr_parts(m);
    let mut parts: Vec<Vec<u8>> = Vec::new();
    if let Some(id) = &attrs.id {
        parts.push(tagged(HASH, id));
    }
    let ghost n0 = parts@.len();
    proof {
        assert(views(parts@) =~= all.subrange(0, n0 as int));
    }
    let mut i: usize = 0;
    while i < attrs.classes.len()
        invariant
            m == attrs@,
            all == attr_parts(m),
            n0 == (if m.id is Some { 1int } else { 0int }),
            0 <= i <= attrs.classes@.len(),
            parts@.len() == n0 + i,
            views(parts@) == all.subrange(0, n0 + i),
            forall|k: int| 0 <= k < parts@.len() ==> valid_utf8(#[trigger] parts@[k]@),
        decreases attrs.classes@.len() - i,
    {
        parts.push(tagged(DOT, &attrs.classes[i]));
        proof {
            assert(all[n0 + i] == seq![DOT] + owned(attrs.classes@[i as int]));
            assert(views(parts@) =~= all.subrange(0, n0 + i + 1));
        }
        i += 1;
    }
    let ghost n1 = parts@.len();
    let mut j: usize = 0;
    while j < attrs.kv.len()
        invariant
            m == attrs@,
            all == attr_parts(m),
            n1 == (if m.id is Some { 1int } else { 0int }) + m.classes.len(),
            0 <= j <= attrs.kv@.len(),
            parts@.len() == n1 + j,
            views(parts@) == all.subrange(0, n1 + j),
            forall|k: int| 0 <= k < parts@.len() ==> valid_utf8(#[trigger] parts@[k]@),
        decreases attrs.kv@.len() - j,
    {
        let key = attrs.kv[j].0.as_str().as_bytes();
        let value = attrs.kv[j].1.as_str().as_bytes();
        let mut part: Vec<u8> = Vec::new();
        push_range(&mut part, key, 0, key.len());
        part.push(EQ);
        proof {
            assert(key@.subrange(0, key@.len() as int) =~= key@);
            lemma_ascii_valid(seq![EQ]);
            valid_utf8_concat(key@, seq![EQ]);
            assert(part@ =~= key@ + seq![EQ]);
        }
        push_value(&mut part, value);
        parts.push(part);
        proof {
            assert(all[n1 + j] == owned(attrs.kv@[j as int].0) + seq![EQ] + value_text(
                owned(attrs.kv@[j as int].1),
            ));
            assert(views(parts@) =~= all.subrange(0, n1 + j + 1));
        }
        j += 1;
    }
    proof {
        assert(all.subrange(0, n1 + j) =~= all);
    }
    let mut out: Vec<u8> = Vec::new();
    out.push(LBRACE);
    let sep: [u8; 1] = [SPACE];
    proof {
        assert(sep@ =~= seq![SPACE]);
        lemma_ascii_valid(seq![SPACE]);
        lemma_ascii_valid(out@);
    }
    join_into(&mut out, &parts, sep.as_slice());
    let ghost mid = out@;
    out.push(RBRACE);
    proof {
        lemma_ascii_valid(seq![RBRACE]);
        valid_utf8_concat(mid, seq![RBRACE]);
        assert(out@ =~= mid + seq![RBRACE]);
        assert(out@ =~= attrs_text_spec(m));
    }
    string_of(out)
}


// ---------------------------------------------------------------------------
// Role heads
// ---------------------------------------------------------------------------

/// A parsed role head: `{name positional key=value}`.
#[derive(Debug, PartialEq)]
pub struct RoleHead {
    pub name: String,
    /// Deprecated `name:registry` suffix.
    pub registry_suffix: Option<String>,
    pub positional: Option<String>,
    pub kv: Vec<(String, String)>,
}

/// A role head with every string taken as its bytes.
#[verifier::ext_equal]
pub struct RoleHeadModel {
    pub name: Seq<u8>,
    pub registry_suffix: Option<Seq<u8>>,
    pub positional: Option<Seq<u8>>,
    pub kv: Seq<(Seq<u8>, Seq<u8>)>,
}

impl View for RoleHead {
    type V = RoleHeadModel;

    open spec fn view(&self) -> RoleHeadModel {
        RoleHeadModel {
            name: owned(self.name),
            registry_suffix: crate::attrs::owned_opt(self.registry_suffix),
            positional: crate::attrs::owned_opt(self.positional),
            kv: owned_pairs(self.kv@),
        }
    }
}

/// The name of a role head in its first token: an identifier, or the
/// deprecated `identifier:key`.
pub open spec fn role_name(s: Seq<u8>, t: (int, int)) -> Option<(Seq<u8>, Option<Seq<u8>>)> {
    let c = find_from(s, t.0, t.1, COLON);
    if c < t.1 {
        if ident_seq(s.subrange(t.0, c)) && key_seq(s.subrange(c + 1, t.1)) {
            Some((s.subrange(t.0, c), Some(s.subrange(c + 1, t.1))))
        } else {
            None
        }
    } else if ident_seq(s.subrange(t.0, t.1)) {
        Some((s.subrange(t.0, t.1), None))
    } else {
        None
    }
}

/// The arguments of a role head read from the tokens `1..n`: at most
/// one positional word, before any pair, holding no `=`; then pairs.
pub open spec fn role_args(s: Seq<u8>, list: Seq<(int, int)>, n: int) -> Option<
    (Option<Seq<u8>>, Seq<(Seq<u8>, Seq<u8>)>),
>
    decreases n,
{
    if n <= 1 {
        Some((None, seq![]))
    } else {
        match role_args(s, list, n - 1) {
            Some(acc) => {
                let t = list[n - 1];
                match key_value_spec(s, t.0, t.1) {
                    Some(p) => Some((acc.0, acc.1.push(p))),
                    None => if acc.0 is None && acc.1.len() == 0 && find_from(s, t.0, t.1, EQ)
                        >= t.1 {
                        Some((Some(s.subrange(t.0, t.1)), acc.1))
                    } else {
                        None
                    },
                }
            },
            None => None,
        }
    }
}

/// The role head `s` spells, if any.
pub open spec fn parse_role_head_spec(s: Seq<u8>) -> Option<RoleHeadModel> {
    let list = tokens_from(s, 0);
    if list.len() == 0 {
        None
    } else {
        match role_name(s, list[0]) {
            Some(nm) => match role_args(s, list, list.len() as int) {
                Some(args) => Some(
                    RoleHeadModel {
                        name: nm.0,
                        registry_suffix: nm.1,
                        positional: args.0,
                        kv: args.1,
                    },
                ),
                None => None,
            },
            None => None,
        }
    }
}

proof fn lemma_role_args_none(s: Seq<u8>, list: Seq<(int, int)>, i: int, n: int)
    requires
        1 <= i <= n,
        role_args(s, list, i) is None,
    ensures
        role_args(s, list, n) is None,
    decreases n - i,
{
    if i < n {
        lemma_role_args_none(s, list, i, n - 1);
    }
}

/// Parses the inside of a role head. `None` when it is not one.
pub fn parse_role_head(s: &str) -> (r: Option<RoleHead>)
    ensures
        match r {
            Some(h) => parse_role_head_spec(s.spec_bytes()) == Some(h@),
            None => parse_role_head_spec(s.spec_bytes()) is None,
        },
{
    let b = s.as_bytes();
    let list = tokens(b, 0);
    if list.len() == 0 {
        return None;
    }
    let ghost ps = pairs(list@);
    let (a0, e0) = list[0];
    proof {
        assert(ps[0] == (a0 as int, e0 as int));
        if a0 > 0 {
            lemma_after_ascii(b@, a0 as int);
        }
    }
    let c = find_byte(b, a0, e0, COLON);
    let name;
    let registry_suffix;
    if c < e0 {
        if !(is_ident(b, a0, c) && is_key(b, c + 1, e0)) {
            return None;
        }
        proof {
            lemma_after_ascii(b@, c + 1);
        }
        name = substring(s, a0, c);
        registry_suffix = Some(substring(s, c + 1, e0));
    } else {
        if !is_ident(b, a0, e0) {
            return None;
        }
        name = substring(s, a0, e0);
        registry_suffix = None;
    }
    let mut positional: Option<String> = None;
    let mut kv: Vec<(String, String)> = Vec::new();
    let mut i: usize = 1;
    while i < list.len()
        invariant
            b@ == s.spec_bytes(),
            ps == pairs(list@),
            ps == tokens_from(b@, 0),
            1 <= i <= list@.len(),
            role_args(b@, ps, i as int) == Some(
                (crate::attrs::owned_opt(positional), owned_pairs(kv@)),
            ),
            forall|k: int|
                0 <= k < list@.len() ==> 0 <= #[trigger] list@[k].0 < list@[k].1 <= b@.len() && (
                list@[k].1 == b@.len() || space(b@[list@[k].1 as int])) && (list@[k].0 == 0
                    || space(b@[list@[k].0 - 1])),
        decreases list@.len() - i,
    {
        let (a, e) = list[i];
        proof {
            assert(ps[i as int] == (a as int, e as int));
            if a > 0 {
                lemma_after_ascii(b@, a as int);
            }
        }
        let ghost pkv = kv@;
        match key_value(s, a, e) {
            Some(pair) => {
                kv.push(pair);
                proof {
                    assert(owned_pairs(kv@) =~= owned_pairs(pkv).push(
                        key_value_spec(b@, a as int, e as int)->Some_0,
                    ));
                }
            },
            None => {
                if positional.is_none() && kv.len() == 0 && find_byte(b, a, e, EQ) >= e {
                    positional = Some(substring(s, a, e));
                } else {
                    proof {
                        lemma_role_args_none(b@, ps, i + 1, list@.len() as int);
                    }
                    return None;
                }
            },
        }
        i += 1;
    }
    let head = RoleHead { name, registry_suffix, positional, kv };
    proof {
        assert(head@ =~= parse_role_head_spec(b@)->Some_0);
    }
    Some(head)
}


// ---------------------------------------------------------------------------
// Reference items
// ---------------------------------------------------------------------------

/// A byte of a bracketed key: `[A-Za-z0-9_:./-]`.
pub open spec fn ref_key_byte(b: u8) -> bool {
    alnum(b) || b == UNDERSCORE || b == COLON || b == DOT || b == DASH || b == SLASH
}

/// A key as a bracketed item spells it: two bytes at least, a letter or
/// a digit first and last, `_ : . - /` inside; an all-digit item is
/// never a key.
pub open spec fn ref_key(t: Seq<u8>) -> bool {
    &&& t.len() >= 2
    &&& alnum(t[0])
    &&& alnum(t[t.len() - 1])
    &&& !(forall|k: int| 0 <= k < t.len() ==> digit(#[trigger] t[k]))
    &&& forall|k: int| 0 <= k < t.len() ==> ref_key_byte(#[trigger] t[k])
}

/// Whether `s[a..b]` is a bracketed key.
fn is_ref_key(s: &[u8], a: usize, b: usize) -> (r: bool)
    requires
        a <= b <= s@.len(),
    ensures
        r == ref_key(s@.subrange(a as int, b as int)),
{
    let ghost t = s@.subrange(a as int, b as int);
    if b - a < 2 || !crate::text::is_alnum(s[a]) || !crate::text::is_alnum(s[b - 1]) {
        return false;
    }
    let mut k = a;
    let mut all_digits = true;
    while k < b
        invariant
            a <= k <= b <= s@.len(),
            t == s@.subrange(a as int, b as int),
            forall|m: int| a <= m < k ==> ref_key_byte(#[trigger] s@[m]),
            all_digits == forall|m: int| a <= m < k ==> digit(#[trigger] s@[m]),
        decreases b - k,
    {
        let c = s[k];
        if !(crate::text::is_alnum(c) || c == UNDERSCORE || c == COLON || c == DOT || c == DASH
            || c == SLASH) {
            proof {
                assert(t[k - a] == s@[k as int]);
            }
            return false;
        }
        if !crate::text::is_digit(c) {
            all_digits = false;
        }
        k += 1;
    }
    proof {
        assert forall|m: int| 0 <= m < t.len() implies ref_key_byte(#[trigger] t[m]) by {
            assert(t[m] == s@[a + m]);
        }
        if all_digits {
            assert forall|m: int| 0 <= m < t.len() implies digit(#[trigger] t[m]) by {
                assert(t[m] == s@[a + m]);
            }
        } else {
            let m = choose|m: int| a <= m < b && !digit(#[trigger] s@[m]);
            assert(t[m - a] == s@[m]);
        }
    }
    !all_digits
}

/// The items of a bracketed reference as byte ranges: the text between
/// `;`s, from `i` on.
pub open spec fn pieces(s: Seq<u8>, i: int) -> Seq<(int, int)>
    decreases s.len() - i,
{
    let c = find_from(s, i, s.len() as int, SEMI);
    if i < 0 || i > s.len() {
        seq![]
    } else if i <= c < s.len() {
        seq![(i, c)] + pieces(s, c + 1)
    } else {
        seq![(i, s.len() as int)]
    }
}

/// Where the head of an item ends: before its first `,` and the blanks
/// before it, or at its end.
pub open spec fn item_head_end(s: Seq<u8>, t0: int, t1: int) -> int {
    let c = find_from(s, t0, t1, COMMA);
    if c < t1 {
        trim_end(s, t0, c)
    } else {
        t1
    }
}

/// Where the last word of a head starts: after its last whitespace
/// character, the whole character, else at its start.
pub open spec fn word_start(s: Seq<u8>, t0: int, h1: int) -> int {
    let w = last_ws(s, t0, h1, h1);
    if w >= 0 {
        w + ws_len(s, w)
    } else {
        t0
    }
}

/// Where the key of a word starts: after one flag (`-` or `+`), then
/// after a `@`.
pub open spec fn key_start(s: Seq<u8>, w0: int, h1: int) -> int {
    let f = if w0 < h1 && (s[w0] == DASH || s[w0] == PLUS) {
        w0 + 1
    } else {
        w0
    };
    if f < h1 && s[f] == AT {
        f + 1
    } else {
        f
    }
}

/// The item spelled by `s[p..q]` (Pandoc's item grammar): an optional
/// prefix, an optional flag, the key and an optional suffix after the
/// first `,`. When the last word is no key, the whole item is the key,
/// `@`s dropped.
pub open spec fn ref_item_spec(s: Seq<u8>, p: int, q: int) -> RefItemModel {
    let t0 = trim_start(s, p, q);
    let t1 = trim_end(s, t0, q);
    let h1 = item_head_end(s, t0, t1);
    let w0 = word_start(s, t0, h1);
    let c0 = key_start(s, w0, h1);
    if w0 < h1 && ref_key(s.subrange(c0, h1)) {
        let pe = trim_end(s, t0, w0);
        let c = find_from(s, t0, t1, COMMA);
        let a = trim_start(s, c + 1, t1);
        let e = trim_end(s, a, t1);
        RefItemModel {
            prefix: if pe > t0 {
                Some(join(words(s, t0, pe), seq![crate::text::SPACE]))
            } else {
                None
            },
            suppress_author: s[w0] == DASH,
            narrative: s[w0] == PLUS,
            key: s.subrange(c0, h1),
            key_span: SubSpan(Span { file: FileId(0), start: c0 as u32, end: h1 as u32 }),
            suffix: if c < t1 && e > a {
                Some(s.subrange(a, e))
            } else {
                None
            },
        }
    } else {
        RefItemModel {
            prefix: None,
            suppress_author: false,
            narrative: false,
            key: drop_byte(s.subrange(t0, t1), AT),
            key_span: SubSpan(Span { file: FileId(0), start: t0 as u32, end: t1 as u32 }),
            suffix: None,
        }
    }
}

/// The items of a bracketed reference.
pub open spec fn parse_ref_items_spec(s: Seq<u8>) -> Seq<RefItemModel> {
    pieces(s, 0).map_values(|pq: (int, int)| ref_item_spec(s, pq.0, pq.1))
}

/// The number of bytes `x` in `s` from `i` on.
pub open spec fn count_byte(s: Seq<u8>, i: int, x: u8) -> nat
    decreases s.len() - i,
{
    if i < 0 || i >= s.len() {
        0
    } else {
        (if s[i] == x {
            1nat
        } else {
            0nat
        }) + count_byte(s, i + 1, x)
    }
}

proof fn lemma_count_skip(s: Seq<u8>, i: int, c: int, x: u8)
    requires
        0 <= i <= c <= s.len(),
        forall|k: int| i <= k < c ==> s[k] != x,
    ensures
        count_byte(s, i, x) == count_byte(s, c, x),
    decreases c - i,
{
    if i < c {
        lemma_count_skip(s, i + 1, c, x);
    }
}

proof fn lemma_pieces_shape(s: Seq<u8>, i: int)
    requires
        0 <= i <= s.len(),
    ensures
        pieces(s, i).len() == count_byte(s, i, SEMI) + 1,
        forall|k: int|
            0 <= k < pieces(s, i).len() ==> i <= (#[trigger] pieces(s, i)[k]).0 <= pieces(s, i)[k].1
                <= s.len(),
    decreases s.len() - i,
{
    lemma_find_from(s, i, s.len() as int, SEMI);
    let c = find_from(s, i, s.len() as int, SEMI);
    lemma_count_skip(s, i, c, SEMI);
    if c < s.len() {
        lemma_pieces_shape(s, c + 1);
        let rest = pieces(s, c + 1);
        assert(pieces(s, i) == seq![(i, c)] + rest);
        assert forall|k: int| 0 <= k < pieces(s, i).len() implies i <= (#[trigger] pieces(s, i)[k]).0
            <= pieces(s, i)[k].1 <= s.len() by {
            if k > 0 {
                assert(pieces(s, i)[k] == rest[k - 1]);
            }
        }
    }
}

proof fn lemma_drop_byte_same(v: Seq<u8>, x: u8)
    requires
        forall|k: int| 0 <= k < v.len() ==> v[k] != x,
    ensures
        drop_byte(v, x) == v,
    decreases v.len(),
{
    if v.len() > 0 {
        lemma_drop_byte_same(v.drop_last(), x);
        assert(v.drop_last().push(v.last()) =~= v);
    }
}

proof fn lemma_drop_byte_clean(v: Seq<u8>, x: u8)
    ensures
        !drop_byte(v, x).contains(x),
    decreases v.len(),
{
    if v.len() > 0 {
        lemma_drop_byte_clean(v.drop_last(), x);
        let d = drop_byte(v.drop_last(), x);
        if v.last() != x {
            assert forall|k: int| 0 <= k < d.push(v.last()).len() implies d.push(v.last())[k] != x by {
                if k < d.len() {
                    assert(d[k] != x) by {
                        if d[k] == x {
                            assert(d.contains(x));
                        }
                    }
                }
            }
        }
    }
}

proof fn lemma_ref_item_shape(s: Seq<u8>, p: int, q: int)
    requires
        0 <= p <= q <= s.len(),
        s.len() <= u32::MAX,
    ensures
        ({
            let it = ref_item_spec(s, p, q);
            let (a, e) = (it.key_span.0.start as int, it.key_span.0.end as int);
            &&& p <= a <= e <= q
            &&& it.key == drop_byte(s.subrange(a, e), AT)
            &&& !it.key.contains(AT)
            &&& !(it.suppress_author && it.narrative)
        }),
{
    crate::text::lemma_trim_start_range(s, p, q);
    let t0 = trim_start(s, p, q);
    crate::refback::lemma_trim_end_range(s, t0, q);
    let t1 = trim_end(s, t0, q);
    lemma_find_from(s, t0, t1, COMMA);
    let c = find_from(s, t0, t1, COMMA);
    if c < t1 {
        crate::refback::lemma_trim_end_range(s, t0, c);
    }
    let h1 = item_head_end(s, t0, t1);
    crate::text::lemma_last_ws(s, t0, h1, h1);
    crate::text::lemma_last_ws_ends(s, t0, h1, h1);
    let w0 = word_start(s, t0, h1);
    let c0 = key_start(s, w0, h1);
    if w0 < h1 && ref_key(s.subrange(c0, h1)) {
        let k = s.subrange(c0, h1);
        assert forall|m: int| 0 <= m < k.len() implies k[m] != AT by {
            assert(ref_key_byte(k[m]));
        }
        lemma_drop_byte_same(k, AT);
        if k.contains(AT) {
            let m = choose|m: int| 0 <= m < k.len() && k[m] == AT;
            assert(k[m] != AT);
        }
    } else {
        lemma_drop_byte_clean(s.subrange(t0, t1), AT);
    }
}

/// With no whitespace character in `[lo, k)`, `last_ws` finds none.
proof fn lemma_last_ws_none(s: Seq<u8>, lo: int, k: int, hi: int)
    requires
        forall|m: int| lo <= m < k ==> ws_len(s, m) == 0,
    ensures
        last_ws(s, lo, k, hi) == -1,
    decreases k - lo,
{
    if k > lo {
        lemma_last_ws_none(s, lo, k - 1, hi);
    }
}

/// A flag (`-` or `+`) then a key is one item, read whole: no prefix, the
/// flag's meaning, the key spanned after the flag, no suffix. A key is
/// two bytes or more of `[A-Za-z0-9_:./-]`, a letter or a digit first and
/// last, not all digits; `_ : . - /` may sit inside it.
pub proof fn lemma_flagged_key_is_one_item(flag: u8, k: Seq<u8>)
    requires
        flag == DASH || flag == PLUS,
        k.len() >= 2,
        alnum(k[0]),
        alnum(k[k.len() - 1]),
        exists|m: int| 0 <= m < k.len() && !digit(#[trigger] k[m]),
        forall|m: int|
            0 <= m < k.len() ==> alnum(#[trigger] k[m]) || k[m] == UNDERSCORE || k[m] == COLON
                || k[m] == DOT || k[m] == DASH || k[m] == SLASH,
    ensures
        parse_ref_items_spec(seq![flag] + k) == seq![
            RefItemModel {
                prefix: None,
                suppress_author: flag == DASH,
                narrative: flag == PLUS,
                key: k,
                key_span: SubSpan(
                    Span { file: FileId(0), start: 1u32, end: (k.len() + 1) as u32 },
                ),
                suffix: None,
            },
        ],
{
    let s = seq![flag] + k;
    let n = s.len() as int;
    assert forall|m: int| 0 <= m < n implies s[m] != SEMI && s[m] != COMMA && ws_len(s, m) == 0
        && s[m] < 0x80 by {
        if m > 0 {
            assert(s[m] == k[m - 1]);
        }
    }
    lemma_find_from(s, 0, n, SEMI);
    assert(pieces(s, 0) =~= seq![(0int, n)]);
    assert(trim_start(s, 0, n) == 0);
    assert(s[n - 1] == k[k.len() - 1]);
    assert(crate::text::ws_len_before(s, n) == 0);
    assert(trim_end(s, 0, n) == n);
    lemma_find_from(s, 0, n, COMMA);
    assert(item_head_end(s, 0, n) == n);
    lemma_last_ws_none(s, 0, n, n);
    assert(word_start(s, 0, n) == 0);
    assert(s[1] == k[0]);
    assert(key_start(s, 0, n) == 1);
    assert(s.subrange(1, n) =~= k);
    assert forall|m: int| 0 <= m < k.len() implies ref_key_byte(#[trigger] k[m]) by {}
    assert(ref_key(k));
    assert(trim_end(s, 0, 0) == 0);
    assert(parse_ref_items_spec(s) =~= seq![ref_item_spec(s, 0, n)]);
}

/// What every read of a citation's items gives: one item per `;`-cut
/// piece, so one more than the `;`s; each key spanned inside the text,
/// spelled there but for its `@`s, holding no `@`; never both flags.
pub proof fn lemma_ref_items_shape(s: Seq<u8>)
    requires
        s.len() <= u32::MAX,
    ensures
        parse_ref_items_spec(s).len() == count_byte(s, 0, SEMI) + 1,
        forall|k: int|
            0 <= k < parse_ref_items_spec(s).len() ==> {
                let it = #[trigger] parse_ref_items_spec(s)[k];
                let (a, e) = (it.key_span.0.start as int, it.key_span.0.end as int);
                &&& a <= e <= s.len()
                &&& it.key == drop_byte(s.subrange(a, e), AT)
                &&& !it.key.contains(AT)
                &&& !(it.suppress_author && it.narrative)
            },
{
    lemma_pieces_shape(s, 0);
    assert forall|k: int| 0 <= k < parse_ref_items_spec(s).len() implies {
        let it = #[trigger] parse_ref_items_spec(s)[k];
        let (a, e) = (it.key_span.0.start as int, it.key_span.0.end as int);
        &&& a <= e <= s.len()
        &&& it.key == drop_byte(s.subrange(a, e), AT)
        &&& !it.key.contains(AT)
        &&& !(it.suppress_author && it.narrative)
    } by {
        let pq = pieces(s, 0)[k];
        lemma_ref_item_shape(s, pq.0, pq.1);
    }
}

/// One item, `s[p..q]`.
#[verifier::rlimit(40)]
#[verifier::spinoff_prover]
fn ref_item(s: &str, p: usize, q: usize) -> (r: RefItem)
    requires
        p <= q <= s.spec_bytes().len(),
        boundary(s.spec_bytes(), p as int),
        boundary(s.spec_bytes(), q as int),
    ensures
        r@ == ref_item_spec(s.spec_bytes(), p as int, q as int),
{
    let b = s.as_bytes();
    let t0 = skip_ws(b, p, q);
    let t1 = back_ws(b, t0, q);
    proof {
        lemma_trim_start(b@, p as int, q as int);
        lemma_trim_end(b@, t0 as int, q as int);
    }
    let c = find_byte(b, t0, t1, COMMA);
    let h1 = if c < t1 {
        proof {
            lemma_trim_end(b@, t0 as int, c as int);
        }
        back_ws(b, t0, c)
    } else {
        t1
    };
    let w0 = match rfind_ws(b, t0, h1) {
        Some(w) => {
            proof {
                crate::text::lemma_ws_char(b@, w as int);
            }
            w + ws_at(b, w)
        },
        None => t0,
    };
    let mut c0 = w0;
    let mut suppress = false;
    let mut narrative = false;
    if c0 < h1 && b[c0] == DASH {
        suppress = true;
        c0 += 1;
    } else if c0 < h1 && b[c0] == PLUS {
        narrative = true;
        c0 += 1;
    }
    proof {
        if c0 > w0 {
            lemma_after_ascii(b@, c0 as int);
        }
    }
    if c0 < h1 && b[c0] == AT {
        c0 += 1;
        proof {
            lemma_after_ascii(b@, c0 as int);
        }
    }
    if w0 < h1 && is_ref_key(b, c0, h1) {
        let pe = back_ws(b, t0, w0);
        proof {
            lemma_trim_end(b@, t0 as int, w0 as int);
        }
        let prefix = if pe > t0 {
            let mut v: Vec<u8> = Vec::new();
            push_words(&mut v, b, t0, pe);
            proof {
                lemma_ascii_valid(seq![]);
                assert(v@ =~= join(words(b@, t0 as int, pe as int), seq![crate::text::SPACE]));
            }
            Some(string_of(v))
        } else {
            None
        };
        let suffix = if c < t1 {
            proof {
                lemma_after_ascii(b@, c + 1);
            }
            let a = skip_ws(b, c + 1, t1);
            proof {
                lemma_trim_start(b@, c + 1, t1 as int);
            }
            let e = back_ws(b, a, t1);
            proof {
                lemma_trim_end(b@, a as int, t1 as int);
            }
            if e > a {
                Some(substring(s, a, e))
            } else {
                None
            }
        } else {
            None
        };
        let item = RefItem {
            prefix,
            suppress_author: suppress,
            narrative,
            key: substring(s, c0, h1),
            key_span: SubSpan::new(FileId(0), c0 as u32, h1 as u32),
            suffix,
        };
        proof {
            assert(item@ =~= ref_item_spec(b@, p as int, q as int));
        }
        item
    } else {
        let mut v: Vec<u8> = Vec::new();
        drop_byte_into(&mut v, b, t0, t1, AT);
        proof {
            lemma_ascii_valid(seq![]);
            assert(v@ =~= drop_byte(b@.subrange(t0 as int, t1 as int), AT));
        }
        let item = RefItem {
            prefix: None,
            suppress_author: false,
            narrative: false,
            key: string_of(v),
            key_span: SubSpan::new(FileId(0), t0 as u32, t1 as u32),
            suffix: None,
        };
        proof {
            assert(item@ =~= ref_item_spec(b@, p as int, q as int));
        }
        item
    }
}

/// Parses the items of a bracketed reference (`see ein05, pp. 33-35;
/// -AI2027`): one item per `;`, each with an optional prefix, an optional
/// flag (`-` suppresses the author, `+` makes the item narrative), the key
/// and an optional suffix after the first `,`. A `@` before a key is
/// accepted and dropped. `key_span` is relative to `inner`.
pub fn parse_ref_items(inner: &str) -> (r: Vec<RefItem>)
    ensures
        item_models(r@) == parse_ref_items_spec(inner.spec_bytes()),
{
    let b = inner.as_bytes();
    let len = b.len();
    let ghost all = pieces(b@, 0);
    let mut out: Vec<RefItem> = Vec::new();
    let mut i: usize = 0;
    let ghost mut done: Seq<(int, int)> = seq![];
    loop
        invariant_except_break
            b@ == inner.spec_bytes(),
            len == b@.len(),
            all == pieces(b@, 0),
            0 <= i <= len,
            boundary(b@, i as int),
            done + pieces(b@, i as int) == all,
            item_models(out@) == done.map_values(|pq: (int, int)| ref_item_spec(b@, pq.0, pq.1)),
        ensures
            item_models(out@) == all.map_values(|pq: (int, int)| ref_item_spec(b@, pq.0, pq.1)),
        decreases len + 1 - i,
    {
        let c = find_byte(b, i, len, SEMI);
        proof {
            lemma_find_from(b@, i as int, len as int, SEMI);
            assert(pieces(b@, i as int)[0] == (i as int, c as int));
            assert(all[done.len() as int] == pieces(b@, i as int)[0]);
        }
        let item = ref_item(inner, i, c);
        let ghost before = out@;
        out.push(item);
        proof {
            let nd = done.push((i as int, c as int));
            assert(item_models(out@) =~= item_models(before).push(item@));
            assert(item_models(out@) =~= nd.map_values(|pq: (int, int)| ref_item_spec(b@, pq.0, pq.1)));
            if c < len {
                assert(pieces(b@, i as int) =~= seq![(i as int, c as int)] + pieces(b@, c + 1));
                assert(done + pieces(b@, i as int) =~= nd + pieces(b@, c + 1));
                lemma_after_ascii(b@, c + 1);
            } else {
                assert(pieces(b@, i as int) =~= seq![(i as int, c as int)]);
                assert(nd =~= all);
            }
            done = nd;
        }
        if c >= len {
            break;
        }
        i = c + 1;
    }
    out
}


// ---------------------------------------------------------------------------
// Fence info strings
// ---------------------------------------------------------------------------

/// A parsed fence info string.
#[derive(Debug, PartialEq)]
pub struct FenceInfo {
    pub lang: String,
    pub node: Option<String>,
    /// `key=value` options, plus the classes and id of a trailing
    /// attribute list. `id_span` is unset.
    pub attrs: Attrs,
    /// Text of the info string that did not parse as options.
    pub rest: Option<String>,
    /// The info string was the braces-only spelling (`{ .c .annotate }`),
    /// whose first class is the language.
    pub braced: bool,
}

/// A fence info string with every string taken as its bytes.
#[verifier::ext_equal]
pub struct FenceInfoModel {
    pub lang: Seq<u8>,
    pub node: Option<Seq<u8>>,
    pub attrs: AttrsModel,
    pub rest: Option<Seq<u8>>,
    pub braced: bool,
}

impl View for FenceInfo {
    type V = FenceInfoModel;

    open spec fn view(&self) -> FenceInfoModel {
        FenceInfoModel {
            lang: owned(self.lang),
            node: crate::attrs::owned_opt(self.node),
            attrs: self.attrs@,
            rest: crate::attrs::owned_opt(self.rest),
            braced: self.braced,
        }
    }
}

/// `s` without its leading and trailing whitespace.
pub open spec fn trimmed(s: Seq<u8>) -> Seq<u8> {
    let a = trim_start(s, 0, s.len() as int);
    s.subrange(a, trim_end(s, a, s.len() as int))
}

/// The words that name what a fence produces: a listing, a data table,
/// a table configuration, a generated image, a raw block.
pub open spec fn node_word(w: Seq<u8>) -> bool {
    w == "code"@.map_values(|c: char| c as u8) || w == "table"@.map_values(|c: char| c as u8)
        || w == "table-config"@.map_values(|c: char| c as u8) || w == "image"@.map_values(
        |c: char| c as u8,
    ) || w == "raw"@.map_values(|c: char| c as u8)
}

/// The options and the leftover words of the tokens `from..n` of `p`.
pub open spec fn fence_fold(p: Seq<u8>, list: Seq<(int, int)>, n: int, from: int) -> (
    Seq<(Seq<u8>, Seq<u8>)>,
    Seq<Seq<u8>>,
)
    decreases n - from,
{
    if n <= from {
        (seq![], seq![])
    } else {
        let acc = fence_fold(p, list, n - 1, from);
        match key_value_spec(p, list[n - 1].0, list[n - 1].1) {
            Some(pair) => (acc.0.push(pair), acc.1),
            None => (acc.0, acc.1.push(p.subrange(list[n - 1].0, list[n - 1].1))),
        }
    }
}

/// The fence info `lang meta` when `lang` starts with `{`: the whole
/// string is one attribute list and its first class is the language.
pub open spec fn braces_only_spec(lang: Seq<u8>, meta: Option<Seq<u8>>) -> Option<FenceInfoModel> {
    let whole = match meta {
        Some(m) => lang + seq![SPACE] + m,
        None => lang,
    };
    let w = trimmed(whole);
    if w.len() >= 2 && w[0] == LBRACE && w[w.len() - 1] == RBRACE {
        match parse_attrs_spec(w.subrange(1, w.len() - 1)) {
            Some(a) => Some(
                FenceInfoModel {
                    lang: if a.classes.len() == 0 {
                        seq![]
                    } else {
                        a.classes[0]
                    },
                    node: None,
                    attrs: AttrsModel {
                        id: a.id,
                        id_span: None,
                        classes: if a.classes.len() == 0 {
                            a.classes
                        } else {
                            a.classes.subrange(1, a.classes.len() as int)
                        },
                        kv: a.kv,
                    },
                    rest: None,
                    braced: true,
                },
            ),
            None => None,
        }
    } else {
        None
    }
}

/// What a fence info string says once its language is known and does
/// not start with `{`.
pub open spec fn fence_meta_spec(lang: Seq<u8>, m: Seq<u8>) -> FenceInfoModel {
    let t = trimmed(m);
    let at = find_from(t, 0, t.len() as int, LBRACE);
    let has_list = at < t.len() && t[t.len() - 1] == RBRACE;
    let p = if has_list {
        t.subrange(0, at)
    } else {
        t
    };
    let list = tokens_from(p, 0);
    let named = list.len() > 0 && node_word(p.subrange(list[0].0, list[0].1));
    let folded = fence_fold(p, list, list.len() as int, if named { 1 } else { 0 });
    let inner = if has_list {
        parse_attrs_spec(t.subrange(at + 1, t.len() - 1))
    } else {
        None
    };
    let attrs = match inner {
        Some(a) => AttrsModel { id: a.id, id_span: None, classes: a.classes, kv: folded.0 + a.kv },
        None => AttrsModel { id: None, id_span: None, classes: seq![], kv: folded.0 },
    };
    let rest = if has_list && inner is None {
        folded.1.push(t.subrange(at, t.len() as int))
    } else {
        folded.1
    };
    FenceInfoModel {
        lang,
        node: if named {
            Some(p.subrange(list[0].0, list[0].1))
        } else {
            None
        },
        attrs,
        rest: if rest.len() > 0 {
            Some(join(rest, seq![SPACE]))
        } else {
            None
        },
        braced: false,
    }
}

/// A parsed fence info string `lang [node] [key=value…] [{attrs}]`.
pub open spec fn parse_fence_info_spec(lang: Option<Seq<u8>>, meta: Option<Seq<u8>>) -> Option<
    FenceInfoModel,
> {
    match lang {
        None => None,
        Some(l) => {
            let t = trimmed(l);
            if t.len() == 0 {
                None
            } else if t[0] == LBRACE {
                braces_only_spec(t, meta)
            } else {
                match meta {
                    None => Some(
                        FenceInfoModel {
                            lang: t,
                            node: None,
                            attrs: empty_model(),
                            rest: None,
                            braced: false,
                        },
                    ),
                    Some(m) => Some(fence_meta_spec(t, m)),
                }
            }
        },
    }
}

/// A byte of a plain lower-case word: `[a-z-]`.
pub open spec fn plain_byte(b: u8) -> bool {
    (0x61 <= b <= 0x7a) || b == DASH
}

/// A token of plain bytes reaches the end of the text.
proof fn lemma_token_end_plain(w: Seq<u8>, i: int)
    requires
        0 <= i <= w.len(),
        forall|k: int| 0 <= k < w.len() ==> plain_byte(#[trigger] w[k]),
    ensures
        token_end(w, i, false) == w.len(),
    decreases w.len() - i,
{
    if i < w.len() {
        assert(plain_byte(w[i]));
        lemma_token_end_plain(w, i + 1);
    }
}

/// A fence whose meta is one plain word: the word is the node when it is
/// a node word, and nothing is left over.
proof fn lemma_one_word_meta(lang: Seq<u8>, w: Seq<u8>)
    requires
        trimmed(lang).len() > 0,
        trimmed(lang)[0] != LBRACE,
        w.len() > 0,
        forall|k: int| 0 <= k < w.len() ==> plain_byte(#[trigger] w[k]),
        node_word(w),
    ensures
        parse_fence_info_spec(Some(lang), Some(w)) == Some(
            FenceInfoModel {
                lang: trimmed(lang),
                node: Some(w),
                attrs: empty_model(),
                rest: None,
                braced: false,
            },
        ),
{
    let n = w.len() as int;
    assert(plain_byte(w[0]));
    assert(plain_byte(w[n - 1]));
    assert(ws_len(w, 0) == 0);
    assert(trim_start(w, 0, n) == 0);
    assert(crate::text::ws_len_before(w, n) == 0);
    assert(trim_end(w, 0, n) == n);
    assert(w.subrange(0, n) =~= w);
    assert(trimmed(w) == w);
    lemma_find_from(w, 0, n, LBRACE);
    if find_from(w, 0, n, LBRACE) < n {
        assert(plain_byte(w[find_from(w, 0, n, LBRACE)]));
    }
    assert(skip_blank(w, 0) == 0);
    lemma_token_end_plain(w, 0);
    assert(skip_blank(w, n) == n);
    assert(tokens_from(w, n) =~= Seq::<(int, int)>::empty());
    assert(tokens_from(w, 0) =~= seq![(0int, n)]);
    let list = tokens_from(w, 0);
    assert(fence_fold(w, list, 1, 1) == (Seq::<(Seq<u8>, Seq<u8>)>::empty(), Seq::<Seq<u8>>::empty()));
    assert(fence_meta_spec(trimmed(lang), w).attrs =~= empty_model());
}

/// The five node words are plain lower-case words.
proof fn lemma_node_words_plain()
    ensures
        forall|k: int| 0 <= k < "code".spec_bytes().len() ==> plain_byte(#[trigger] "code".spec_bytes()[k]),
        forall|k: int| 0 <= k < "table".spec_bytes().len() ==> plain_byte(#[trigger] "table".spec_bytes()[k]),
        forall|k: int|
            0 <= k < "table-config".spec_bytes().len() ==> plain_byte(
                #[trigger] "table-config".spec_bytes()[k],
            ),
        forall|k: int| 0 <= k < "image".spec_bytes().len() ==> plain_byte(#[trigger] "image".spec_bytes()[k]),
        forall|k: int| 0 <= k < "raw".spec_bytes().len() ==> plain_byte(#[trigger] "raw".spec_bytes()[k]),
        "code".spec_bytes().len() > 0,
        "table".spec_bytes().len() > 0,
        "table-config".spec_bytes().len() > 0,
        "image".spec_bytes().len() > 0,
        "raw".spec_bytes().len() > 0,
        "code".spec_bytes() == "code"@.map_values(|c: char| c as u8),
        "table".spec_bytes() == "table"@.map_values(|c: char| c as u8),
        "table-config".spec_bytes() == "table-config"@.map_values(|c: char| c as u8),
        "image".spec_bytes() == "image"@.map_values(|c: char| c as u8),
        "raw".spec_bytes() == "raw"@.map_values(|c: char| c as u8),
{
    reveal_strlit("code");
    vstd::string::is_ascii_spec_bytes("code");
    assert(vstd::string::is_ascii("code"));
    reveal_strlit("table");
    vstd::string::is_ascii_spec_bytes("table");
    assert(vstd::string::is_ascii("table"));
    reveal_strlit("table-config");
    vstd::string::is_ascii_spec_bytes("table-config");
    assert(vstd::string::is_ascii("table-config"));
    reveal_strlit("image");
    vstd::string::is_ascii_spec_bytes("image");
    assert(vstd::string::is_ascii("image"));
    reveal_strlit("raw");
    vstd::string::is_ascii_spec_bytes("raw");
    assert(vstd::string::is_ascii("raw"));
    assert("code".spec_bytes() =~= "code"@.map_values(|c: char| c as u8));
    assert("table".spec_bytes() =~= "table"@.map_values(|c: char| c as u8));
    assert("table-config".spec_bytes() =~= "table-config"@.map_values(|c: char| c as u8));
    assert("image".spec_bytes() =~= "image"@.map_values(|c: char| c as u8));
    assert("raw".spec_bytes() =~= "raw"@.map_values(|c: char| c as u8));
}

/// Each of the words `code`, `table`, `table-config`, `image` and `raw`
/// alone after a fence's language names what the fence produces: it is
/// the node, with no option and nothing left over.
pub proof fn lemma_node_words_name_the_node(lang: Seq<u8>, w: Seq<u8>)
    requires
        trimmed(lang).len() > 0,
        trimmed(lang)[0] != LBRACE,
        w == "code".spec_bytes() || w == "table".spec_bytes() || w == "table-config".spec_bytes()
            || w == "image".spec_bytes() || w == "raw".spec_bytes(),
    ensures
        parse_fence_info_spec(Some(lang), Some(w)) == Some(
            FenceInfoModel {
                lang: trimmed(lang),
                node: Some(w),
                attrs: empty_model(),
                rest: None,
                braced: false,
            },
        ),
{
    lemma_node_words_plain();
    lemma_one_word_meta(lang, w);
}

/// Every class an attribute list reads is a key.
proof fn lemma_fold_classes(s: Seq<u8>, list: Seq<(int, int)>, n: int)
    ensures
        attrs_fold(s, list, n) matches Some(a) ==> forall|k: int|
            0 <= k < a.classes.len() ==> key_seq(#[trigger] a.classes[k]),
    decreases n,
{
    if n > 0 {
        lemma_fold_classes(s, list, n - 1);
    }
}

/// A fence's language is never `{`: a braces-only info string gives
/// its first class, or none, and any other info string its first word,
/// which does not start with `{`.
pub proof fn lemma_fence_lang_never_brace(lang: Option<Seq<u8>>, meta: Option<Seq<u8>>)
    ensures
        parse_fence_info_spec(lang, meta) matches Some(f) ==> f.lang != seq![LBRACE],
{
    if let Some(l) = lang {
        let t = trimmed(l);
        if t.len() > 0 && t[0] == LBRACE {
            let whole = match meta {
                Some(m) => t + seq![SPACE] + m,
                None => t,
            };
            let w = trimmed(whole);
            if w.len() >= 2 && w[0] == LBRACE && w[w.len() - 1] == RBRACE {
                let inner = w.subrange(1, w.len() - 1);
                let list = tokens_from(inner, attrs_start(inner));
                lemma_fold_classes(inner, list, list.len() as int);
                if let Some(a) = parse_attrs_spec(inner) {
                    if a.classes.len() > 0 {
                        assert(key_seq(a.classes[0]));
                        assert(ident_byte(a.classes[0][0]));
                    }
                }
            }
        } else if t.len() > 0 {
            if let Some(f) = parse_fence_info_spec(lang, meta) {
                assert(f.lang == t);
                assert(f.lang[0] != LBRACE);
            }
        }
    }
}

/// The trimmed copy of a string.
pub(crate) fn trim_copy(s: &str) -> (r: String)
    ensures
        owned(r) == trimmed(s.spec_bytes()),
        owned(r).len() <= s.spec_bytes().len(),
{
    let b = s.as_bytes();
    let a = skip_ws(b, 0, b.len());
    let e = back_ws(b, a, b.len());
    proof {
        lemma_trim_start(b@, 0, b@.len() as int);
        lemma_trim_end(b@, a as int, b@.len() as int);
    }
    substring(s, a, e)
}

/// Whether `t[a..e]` is a node word.
fn is_node_word(t: &[u8], a: usize, e: usize) -> (r: bool)
    requires
        a <= e <= t@.len(),
    ensures
        r == node_word(t@.subrange(a as int, e as int)),
{
    let code: [u8; 4] = [0x63, 0x6f, 0x64, 0x65];
    let table: [u8; 5] = [0x74, 0x61, 0x62, 0x6c, 0x65];
    let config: [u8; 12] = [0x74, 0x61, 0x62, 0x6c, 0x65, 0x2d, 0x63, 0x6f, 0x6e, 0x66, 0x69, 0x67];
    let image: [u8; 5] = [0x69, 0x6d, 0x61, 0x67, 0x65];
    let raw: [u8; 3] = [0x72, 0x61, 0x77];
    proof {
        reveal_strlit("code");
        reveal_strlit("table");
        reveal_strlit("table-config");
        reveal_strlit("image");
        reveal_strlit("raw");
        assert(code@ =~= "code"@.map_values(|c: char| c as u8));
        assert(table@ =~= "table"@.map_values(|c: char| c as u8));
        assert(config@ =~= "table-config"@.map_values(|c: char| c as u8));
        assert(image@ =~= "image"@.map_values(|c: char| c as u8));
        assert(raw@ =~= "raw"@.map_values(|c: char| c as u8));
    }
    range_eq(t, a, e, code.as_slice()) || range_eq(t, a, e, table.as_slice()) || range_eq(
        t,
        a,
        e,
        config.as_slice(),
    ) || range_eq(t, a, e, image.as_slice()) || range_eq(t, a, e, raw.as_slice())
}

/// The braces-only info string: `{ .c .annotate }` is `c {.annotate}`.
fn braces_only(lang: &str, meta: Option<&str>) -> (r: Option<FenceInfo>)
    requires
        lang.spec_bytes().len() + 1 + match meta {
            Some(m) => m.spec_bytes().len(),
            None => 0,
        } < 0xffff_ffff,
    ensures
        match r {
            Some(f) => braces_only_spec(lang.spec_bytes(), match meta {
                Some(m) => Some(m.spec_bytes()),
                None => None,
            }) == Some(f@),
            None => braces_only_spec(lang.spec_bytes(), match meta {
                Some(m) => Some(m.spec_bytes()),
                None => None,
            }) is None,
        },
{
    let lb = lang.as_bytes();
    let mut v: Vec<u8> = Vec::new();
    push_range(&mut v, lb, 0, lb.len());
    proof {
        assert(lb@.subrange(0, lb@.len() as int) =~= lb@);
        assert(v@ =~= lb@);
    }
    if let Some(m) = meta {
        let mb = m.as_bytes();
        let ghost before = v@;
        v.push(SPACE);
        push_range(&mut v, mb, 0, mb.len());
        proof {
            assert(mb@.subrange(0, mb@.len() as int) =~= mb@);
            lemma_ascii_valid(seq![SPACE]);
            valid_utf8_concat(before, seq![SPACE]);
            valid_utf8_concat(before + seq![SPACE], mb@);
            assert(v@ =~= before + seq![SPACE] + mb@);
        }
    }
    let whole = string_of(v);
    let w = trim_copy(whole.as_str());
    let wb = w.as_str().as_bytes();
    let n = wb.len();
    if n < 2 || wb[0] != LBRACE || wb[n - 1] != RBRACE {
        return None;
    }
    proof {
        lemma_after_ascii(wb@, 1);
    }
    let inner = substring(w.as_str(), 1, n - 1);
    let parsed = parse_attrs(inner.as_str());
    match parsed {
        None => None,
        Some(mut attrs) => {
            attrs.id_span = None;
            let ghost classes = attrs@.classes;
            let first = if attrs.classes.len() == 0 {
                String::new()
            } else {
                attrs.classes.remove(0)
            };
            let info = FenceInfo { lang: first, node: None, attrs, rest: None, braced: true };
            proof {
                if classes.len() > 0 {
                    assert(info.attrs@.classes =~= classes.subrange(1, classes.len() as int));
                }
                assert(info@ =~= braces_only_spec(lang.spec_bytes(), match meta {
                    Some(m) => Some(m.spec_bytes()),
                    None => None,
                })->Some_0);
            }
            Some(info)
        },
    }
}


/// The bytes of an optional string slice.
pub open spec fn opt_bytes(s: Option<&str>) -> Option<Seq<u8>> {
    match s {
        Some(t) => Some(t.spec_bytes()),
        None => None,
    }
}

/// The length of an optional string slice.
pub open spec fn opt_len(s: Option<&str>) -> int {
    match s {
        Some(t) => t.spec_bytes().len() as int,
        None => 0,
    }
}

/// Parses `lang [node] [key=value…] [{attrs}]`: bare `key=value` options
/// and, at the end, an attribute list in braces, the only spelling that
/// can carry classes. The braces-only spelling of `pymdownx.superfences`
/// (`{ .c .annotate }`, which reaches this function as a language of
/// `{` or `{.c`) is recombined and read as the attribute list it is, the
/// first class becoming the language. A language of `{` is never
/// returned.
pub fn parse_fence_info(lang: Option<&str>, meta: Option<&str>) -> (r: Option<FenceInfo>)
    requires
        opt_len(lang) + 1 + opt_len(meta) < 0xffff_ffff,
    ensures
        match r {
            Some(f) => parse_fence_info_spec(opt_bytes(lang), opt_bytes(meta)) == Some(f@),
            None => parse_fence_info_spec(opt_bytes(lang), opt_bytes(meta)) is None,
        },
{
    let l = match lang {
        Some(l) => l,
        None => return None,
    };
    let t = trim_copy(l);
    let tb = t.as_str().as_bytes();
    if tb.len() == 0 {
        return None;
    }
    if tb[0] == LBRACE {
        return braces_only(t.as_str(), meta);
    }
    let m = match meta {
        Some(m) => m,
        None => {
            let info = FenceInfo { lang: t, node: None, attrs: Attrs::new(), rest: None, braced: false };
            proof {
                assert(info@ =~= parse_fence_info_spec(opt_bytes(lang), opt_bytes(meta))->Some_0);
            }
            return Some(info);
        },
    };
    let tm = trim_copy(m);
    let tmb = tm.as_str().as_bytes();
    let n = tmb.len();
    let at = find_byte(tmb, 0, n, LBRACE);
    let has_list = at < n && tmb[n - 1] == RBRACE;
    let p = if has_list {
        substring(tm.as_str(), 0, at)
    } else {
        proof {
            assert(tmb@.subrange(0, n as int) =~= tmb@);
        }
        substring(tm.as_str(), 0, n)
    };
    let pb = p.as_str().as_bytes();
    let list = tokens(pb, 0);
    let ghost ps = pairs(list@);
    let named = list.len() > 0 && is_node_word(pb, list[0].0, list[0].1);
    proof {
        if list@.len() > 0 {
            assert(ps[0] == (list@[0].0 as int, list@[0].1 as int));
            if list@[0].0 > 0 {
                lemma_after_ascii(pb@, list@[0].0 as int);
            }
        }
    }
    let node = if named {
        Some(substring(p.as_str(), list[0].0, list[0].1))
    } else {
        None
    };
    let from: usize = if named {
        1
    } else {
        0
    };
    let mut kv: Vec<(String, String)> = Vec::new();
    let mut rest: Vec<Vec<u8>> = Vec::new();
    let mut i: usize = from;
    while i < list.len()
        invariant
            pb@ == owned(p),
            ps == pairs(list@),
            ps == tokens_from(pb@, 0),
            from <= i <= list@.len(),
            fence_fold(pb@, ps, i as int, from as int) == (owned_pairs(kv@), views(rest@)),
            forall|k: int| 0 <= k < rest@.len() ==> valid_utf8(#[trigger] rest@[k]@),
            forall|k: int|
                0 <= k < list@.len() ==> 0 <= #[trigger] list@[k].0 < list@[k].1 <= pb@.len() && (
                list@[k].1 == pb@.len() || space(pb@[list@[k].1 as int])) && (list@[k].0 == 0
                    || space(pb@[list@[k].0 - 1])),
        decreases list@.len() - i,
    {
        let (a, e) = list[i];
        proof {
            assert(ps[i as int] == (a as int, e as int));
            if a > 0 {
                lemma_after_ascii(pb@, a as int);
            }
        }
        let ghost pkv = kv@;
        let ghost prest = rest@;
        match key_value(p.as_str(), a, e) {
            Some(pair) => {
                kv.push(pair);
                proof {
                    assert(owned_pairs(kv@) =~= owned_pairs(pkv).push(
                        key_value_spec(pb@, a as int, e as int)->Some_0,
                    ));
                }
            },
            None => {
                let mut word: Vec<u8> = Vec::new();
                push_range(&mut word, pb, a, e);
                proof {
                    lemma_slice_valid(pb@, a as int, e as int);
                    assert(word@ =~= pb@.subrange(a as int, e as int));
                }
                rest.push(word);
                proof {
                    assert(views(rest@) =~= views(prest).push(pb@.subrange(a as int, e as int)));
                }
            },
        }
        i += 1;
    }
    let mut attrs = Attrs::new();
    attrs.kv = kv;
    proof {
        assert(attrs@.kv == owned_pairs(kv@));
    }
    if has_list {
        proof {
            lemma_after_ascii(tmb@, at + 1);
        }
        let inner = substring(tm.as_str(), at + 1, n - 1);
        match parse_attrs(inner.as_str()) {
            Some(mut a) => {
                let ghost prev = attrs@;
                let ghost am = a@;
                attrs.id = a.id;
                attrs.classes = a.classes;
                attrs.kv.append(&mut a.kv);
                proof {
                    assert(attrs@.kv =~= prev.kv + am.kv);
                }
            },
            None => {
                let ghost prest = rest@;
                let mut tail: Vec<u8> = Vec::new();
                push_range(&mut tail, tmb, at, n);
                proof {
                    lemma_slice_valid(tmb@, at as int, n as int);
                    assert(tail@ =~= tmb@.subrange(at as int, n as int));
                }
                rest.push(tail);
                proof {
                    assert(views(rest@) =~= views(prest).push(tmb@.subrange(at as int, n as int)));
                }
            },
        }
    }
    let joined = if rest.len() > 0 {
        let mut out: Vec<u8> = Vec::new();
        let sep: [u8; 1] = [SPACE];
        proof {
            assert(sep@ =~= seq![SPACE]);
            lemma_ascii_valid(seq![SPACE]);
            lemma_ascii_valid(out@);
        }
        join_into(&mut out, &rest, sep.as_slice());
        Some(string_of(out))
    } else {
        None
    };
    let info = FenceInfo { lang: t, node, attrs, rest: joined, braced: false };
    proof {
        assert(info@ =~= parse_fence_info_spec(opt_bytes(lang), opt_bytes(meta))->Some_0);
    }
    Some(info)
}


// ---------------------------------------------------------------------------
// Container and admonition info
// ---------------------------------------------------------------------------

/// The first position in `[i, j)` holding ASCII whitespace; `j` when
/// none does.
pub open spec fn first_space(s: Seq<u8>, i: int, j: int) -> int
    decreases j - i,
{
    if i >= j {
        j
    } else if space(s[i]) {
        i
    } else {
        first_space(s, i + 1, j)
    }
}

proof fn lemma_first_space(s: Seq<u8>, i: int, j: int)
    requires
        i <= j,
    ensures
        i <= first_space(s, i, j) <= j,
        first_space(s, i, j) < j ==> space(s[first_space(s, i, j)]),
    decreases j - i,
{
    if i < j && !space(s[i]) {
        lemma_first_space(s, i + 1, j);
    }
}

/// The name and the attribute list of a container info string, and
/// whether what follows the name is an attribute list (or nothing).
pub open spec fn container_info_spec(info: Seq<u8>) -> (Seq<u8>, Option<AttrsModel>, bool) {
    let t = trimmed(info);
    let at = first_space(t, 0, t.len() as int);
    let name = t.subrange(0, at);
    let rest = trimmed(t.subrange(at, t.len() as int));
    if rest.len() == 0 {
        (name, None, true)
    } else if rest[0] == LBRACE && rest[rest.len() - 1] == RBRACE && rest.len() >= 2 {
        let parsed = parse_attrs_spec(rest.subrange(1, rest.len() - 1));
        (name, parsed, parsed is Some)
    } else {
        (name, None, false)
    }
}

/// Splits a container info string into its name and the raw attribute
/// list: `(name, attrs, valid)`, `valid` false when what follows the name
/// is not an attribute list.
pub fn parse_container_info(info: &str) -> (r: (String, Option<Attrs>, bool))
    requires
        info.spec_bytes().len() < 0xffff_ffff,
    ensures
        owned(r.0) == container_info_spec(info.spec_bytes()).0,
        r.2 == container_info_spec(info.spec_bytes()).2,
        match r.1 {
            Some(a) => container_info_spec(info.spec_bytes()).1 == Some(a@),
            None => container_info_spec(info.spec_bytes()).1 is None,
        },
{
    let t = trim_copy(info);
    let tb = t.as_str().as_bytes();
    let n = tb.len();
    let mut at: usize = 0;
    while at < n && !is_space(tb[at])
        invariant
            0 <= at <= n == tb@.len(),
            first_space(tb@, at as int, n as int) == first_space(tb@, 0, n as int),
        decreases n - at,
    {
        at += 1;
    }
    proof {
        lemma_first_space(tb@, 0, n as int);
        if at < n {
            assert(tb@[at as int] < 0x80);
        }
    }
    let name = substring(t.as_str(), 0, at);
    let tail = substring(t.as_str(), at, n);
    let rest = trim_copy(tail.as_str());
    let rb = rest.as_str().as_bytes();
    let m = rb.len();
    if m == 0 {
        return (name, None, true);
    }
    if rb[0] == LBRACE && rb[m - 1] == RBRACE && m >= 2 {
        proof {
            lemma_after_ascii(rb@, 1);
        }
        let inner = substring(rest.as_str(), 1, m - 1);
        let parsed = parse_attrs(inner.as_str());
        let valid = parsed.is_some();
        (name, parsed, valid)
    } else {
        (name, None, false)
    }
}

/// The words of `s[lo..hi]` as strings.
pub(crate) fn collect_words(s: &str, lo: usize, hi: usize) -> (r: Vec<String>)
    requires
        lo <= hi <= s.spec_bytes().len(),
        boundary(s.spec_bytes(), lo as int),
        boundary(s.spec_bytes(), hi as int),
    ensures
        owned_seq(r@) == words(s.spec_bytes(), lo as int, hi as int),
{
    let b = s.as_bytes();
    let mut out: Vec<String> = Vec::new();
    let mut i = lo;
    while i < hi
        invariant
            b@ == s.spec_bytes(),
            lo <= i <= hi <= b@.len(),
            boundary(b@, i as int),
            boundary(b@, hi as int),
            owned_seq(out@) + words(b@, i as int, hi as int) == words(b@, lo as int, hi as int),
        decreases hi - i,
    {
        let a = skip_ws(b, i, hi);
        proof {
            lemma_trim_start(b@, i as int, hi as int);
            crate::text::lemma_trim_start_range(b@, i as int, hi as int);
        }
        if a >= hi {
            proof {
                assert(words(b@, i as int, hi as int) =~= seq![]);
                assert(owned_seq(out@) + seq![] =~= owned_seq(out@));
            }
            i = hi;
        } else {
            let mut e = a;
            while e < hi && ws_at(b, e) == 0
                invariant
                    a <= e <= hi <= b@.len(),
                    crate::text::next_ws(b@, e as int, hi as int) == crate::text::next_ws(b@, a as int, hi as int),
                decreases hi - e,
            {
                e += 1;
            }
            proof {
                crate::text::lemma_next_ws(b@, a as int, hi as int);
                if e == a {
                    crate::text::lemma_ws_char(b@, a as int);
                }
                assert(words(b@, i as int, hi as int) =~= seq![b@.subrange(a as int, e as int)]
                    + words(b@, e as int, hi as int));
            }
            let ghost prev = out@;
            out.push(substring(s, a, e));
            proof {
                assert(owned_seq(out@) =~= owned_seq(prev).push(b@.subrange(a as int, e as int)));
                assert(owned_seq(out@) + words(b@, e as int, hi as int) =~= owned_seq(prev)
                    + words(b@, i as int, hi as int));
            }
            i = e;
        }
    }
    proof {
        assert(words(b@, i as int, hi as int) =~= seq![]);
        assert(owned_seq(out@) + seq![] =~= owned_seq(out@));
    }
    out
}

/// The first position in `[i, j)` that does not hold `x`; `j` when all do.
pub open spec fn skip_byte(s: Seq<u8>, i: int, j: int, x: u8) -> int
    decreases j - i,
{
    if i < j && s[i] == x {
        skip_byte(s, i + 1, j, x)
    } else {
        i
    }
}

/// The position after the last byte in `[i, j)` that is not `x`; `i`
/// when all are.
pub open spec fn back_byte(s: Seq<u8>, i: int, j: int, x: u8) -> int
    decreases j - i,
{
    if i < j && s[j - 1] == x {
        back_byte(s, i, j - 1, x)
    } else {
        j
    }
}

/// What `type class… "Title"` of a PyMdownX admonition holds: the type,
/// the classes, and the title with the position where it starts in the
/// info string.
pub open spec fn admonition_info_spec(s: Seq<u8>) -> (Seq<u8>, Seq<Seq<u8>>, Option<(Seq<u8>, int)>) {
    let t0 = trim_start(s, 0, s.len() as int);
    let t1 = trim_end(s, t0, s.len() as int);
    let at = find_from(s, t0, t1, QUOTE);
    let head_end = if at < t1 {
        at
    } else {
        t1
    };
    let h0 = trim_start(s, t0, head_end);
    let h1 = trim_end(s, h0, head_end);
    let ws = words(s, h0, h1);
    let title = if at < t1 {
        let a = trim_start(s, at, t1);
        let e = trim_end(s, a, t1);
        let q0 = skip_byte(s, a, e, QUOTE);
        let q1 = back_byte(s, q0, e, QUOTE);
        Some((s.subrange(q0, q1), q0))
    } else {
        None
    };
    (
        if ws.len() > 0 {
            ws[0]
        } else {
            seq![]
        },
        if ws.len() > 0 {
            ws.subrange(1, ws.len() as int)
        } else {
            seq![]
        },
        title,
    )
}

/// Splits `type class… "Title"` of a PyMdownX admonition. The title comes
/// with its byte offset in `info`.
pub fn parse_admonition_info(info: &str) -> (r: (String, Vec<String>, Option<(String, usize)>))
    ensures
        owned(r.0) == admonition_info_spec(info.spec_bytes()).0,
        owned_seq(r.1@) == admonition_info_spec(info.spec_bytes()).1,
        match r.2 {
            Some(tt) => admonition_info_spec(info.spec_bytes()).2 == Some((owned(tt.0), tt.1 as int)),
            None => admonition_info_spec(info.spec_bytes()).2 is None,
        },
{
    let b = info.as_bytes();
    let len = b.len();
    let t0 = skip_ws(b, 0, len);
    let t1 = back_ws(b, t0, len);
    proof {
        lemma_trim_start(b@, 0, len as int);
        lemma_trim_end(b@, t0 as int, len as int);
    }
    let at = find_byte(b, t0, t1, QUOTE);
    let head_end = if at < t1 {
        at
    } else {
        t1
    };
    let h0 = skip_ws(b, t0, head_end);
    proof {
        lemma_trim_start(b@, t0 as int, head_end as int);
    }
    let h1 = back_ws(b, h0, head_end);
    proof {
        lemma_trim_end(b@, h0 as int, head_end as int);
    }
    let mut ws = collect_words(info, h0, h1);
    let ghost wm = owned_seq(ws@);
    let kind = if ws.len() > 0 {
        ws.remove(0)
    } else {
        String::new()
    };
    proof {
        if wm.len() > 0 {
            assert(owned_seq(ws@) =~= wm.subrange(1, wm.len() as int));
        } else {
            assert(owned_seq(ws@) =~= seq![]);
        }
    }
    let title = if at < t1 {
        let a = skip_ws(b, at, t1);
        proof {
            lemma_trim_start(b@, at as int, t1 as int);
        }
        let e = back_ws(b, a, t1);
        proof {
            lemma_trim_end(b@, a as int, t1 as int);
        }
        let mut q0 = a;
        while q0 < e && b[q0] == QUOTE
            invariant
                a <= q0 <= e <= b@.len(),
                b@ == info.spec_bytes(),
                boundary(b@, q0 as int),
                skip_byte(b@, q0 as int, e as int, QUOTE) == skip_byte(b@, a as int, e as int, QUOTE),
            decreases e - q0,
        {
            q0 += 1;
            proof {
                lemma_after_ascii(b@, q0 as int);
            }
        }
        let mut q1 = e;
        while q1 > q0 && b[q1 - 1] == QUOTE
            invariant
                q0 <= q1 <= e <= b@.len(),
                b@ == info.spec_bytes(),
                boundary(b@, q1 as int),
                back_byte(b@, q0 as int, q1 as int, QUOTE) == back_byte(b@, q0 as int, e as int, QUOTE),
            decreases q1 - q0,
        {
            q1 -= 1;
        }
        Some((substring(info, q0, q1), q0))
    } else {
        None
    };
    (kind, ws, title)
}

/// The position, in `s`, of the value of `key` in the tokens `k..` of
/// an attribute list, quotes off; -1 when the value is not a verbatim
/// slice, -2 when no token names `key`.
pub open spec fn value_offset_from(s: Seq<u8>, list: Seq<(int, int)>, k: int, key: Seq<u8>) -> int
    decreases list.len() - k,
{
    if k < 0 || k >= list.len() {
        -2
    } else {
        let a = list[k].0;
        let b = list[k].1;
        let e = find_from(s, a, b, EQ);
        if e >= b || s.subrange(a, e) != key || e + 1 >= b {
            value_offset_from(s, list, k + 1, key)
        } else {
            let quoted = b - (e + 1) >= 2 && s[e + 1] == QUOTE && s[b - 1] == QUOTE;
            let i0 = if quoted {
                e + 2
            } else {
                e + 1
            };
            let i1 = if quoted {
                b - 1
            } else {
                b
            };
            if find_from(s, i0, i1, BSL) < i1 {
                -1
            } else {
                i0
            }
        }
    }
}

/// Byte offset, inside the text of an attribute list, of the value of
/// `key` (quotes off). `None` when the list has no such key or when its
/// value is not a verbatim slice of the text (a quoted value with a
/// backslash in it).
pub fn attr_value_offset(s: &str, key: &str) -> (r: Option<usize>)
    ensures
        match r {
            Some(at) => value_offset_from(s.spec_bytes(), tokens_from(s.spec_bytes(), attrs_start(s.spec_bytes())), 0, key.spec_bytes()) == at,
            None => value_offset_from(s.spec_bytes(), tokens_from(s.spec_bytes(), attrs_start(s.spec_bytes())), 0, key.spec_bytes()) < 0,
        },
{
    let b = s.as_bytes();
    let kb = key.as_bytes();
    let len = b.len();
    let t = skip_ws(b, 0, len);
    let start = if t < len && b[t] == COLON {
        t + 1
    } else {
        0
    };
    let list = tokens(b, start);
    let ghost ps = pairs(list@);
    let mut k: usize = 0;
    while k < list.len()
        invariant
            b@ == s.spec_bytes(),
            kb@ == key.spec_bytes(),
            ps == pairs(list@),
            ps == tokens_from(b@, attrs_start(b@)),
            0 <= k <= list@.len(),
            value_offset_from(b@, ps, k as int, kb@) == value_offset_from(b@, ps, 0, kb@),
            forall|m: int| 0 <= m < list@.len() ==> #[trigger] list@[m].0 < list@[m].1 <= b@.len(),
        decreases list@.len() - k,
    {
        let (a, e0) = list[k];
        proof {
            assert(ps[k as int] == (a as int, e0 as int));
        }
        let e = find_byte(b, a, e0, EQ);
        if e >= e0 || !range_eq(b, a, e, kb) || e + 1 >= e0 {
            k += 1;
        } else {
            let quoted = e0 - (e + 1) >= 2 && b[e + 1] == QUOTE && b[e0 - 1] == QUOTE;
            let i0 = if quoted {
                e + 2
            } else {
                e + 1
            };
            let i1 = if quoted {
                e0 - 1
            } else {
                e0
            };
            proof {
                assert(ps.len() == list@.len());
                assert(b@.subrange(a as int, e as int) == kb@);
            }
            if find_byte(b, i0, i1, BSL) < i1 {
                proof {
                    assert(value_offset_from(b@, ps, k as int, kb@) == -1);
                }
                return None;
            }
            proof {
                assert(value_offset_from(b@, ps, k as int, kb@) == i0);
            }
            return Some(i0);
        }
    }
    None
}

} // verus!
