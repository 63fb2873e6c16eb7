//! Byte-level predicates shared by the TMark constructs: identifiers,
//! attribute lists, foreign directives, line ends and the display-math
//! fence that closes a content line.

use vstd::prelude::*;
use vstd::string::*;
use crate::text::{
    find_byte, find_from,
    alnum, alpha, is_alnum, is_alpha, is_space, space, COLON, DASH, DOLLAR, DOT, EQ, HASH, LBRACE, NL,
    RBRACE, SPACE, TAB, UNDERSCORE,
};

verus! {

/// `[A-Za-z]`: a byte that starts an identifier.
pub open spec fn ident_start(b: u8) -> bool {
    alpha(b)
}

/// `[A-Za-z0-9_-]`: a byte that continues an identifier.
pub open spec fn ident_byte(b: u8) -> bool {
    alnum(b) || b == UNDERSCORE || b == DASH
}

/// Whether the character before `index` in `text` is a word character for
/// the `@` guard (`@` never fires inside a word): alphanumeric in the
/// Unicode sense, or `_`. `§`, `(`, `«` and other punctuation are not.
pub fn word_char_before(text: &str, index: usize) -> (r: bool)
    requires
        index <= text.spec_bytes().len(),
        crate::text::boundary(text.spec_bytes(), index as int),
    ensures
        r == match crate::text::char_before(text.spec_bytes(), index as int) {
            Some(c) => crate::text::alphanumeric(c) || c == '_',
            None => false,
        },
{
    match crate::text::char_before_byte(text, index) {
        Some(c) => crate::text::char_is_alphanumeric(c) || c == '_',
        None => false,
    }
}

/// Whether a byte can start an identifier (`[A-Za-z]`).
pub fn is_ident_start(byte: u8) -> (r: bool)
    ensures
        r == ident_start(byte),
{
    is_alpha(byte)
}

/// Whether a byte can continue an identifier (`[A-Za-z0-9_-]`).
pub fn is_ident_byte(byte: u8) -> (r: bool)
    ensures
        r == ident_byte(byte),
{
    is_alnum(byte) || byte == UNDERSCORE || byte == DASH
}

/// The first position from `i` on that holds neither a space nor a tab.
pub open spec fn skip_blanks(s: Seq<u8>, i: int) -> int
    decreases s.len() - i,
{
    if 0 <= i < s.len() && (s[i] == SPACE || s[i] == TAB) {
        skip_blanks(s, i + 1)
    } else {
        i
    }
}

/// The first position from `i` on that does not hold an identifier byte.
pub open spec fn ident_end(s: Seq<u8>, i: int) -> int
    decreases s.len() - i,
{
    if 0 <= i < s.len() && ident_byte(s[i]) {
        ident_end(s, i + 1)
    } else {
        i
    }
}

/// The first position from `i` on that does not hold `x`.
pub open spec fn run_end(s: Seq<u8>, i: int, x: u8) -> int
    decreases s.len() - i,
{
    if 0 <= i < s.len() && s[i] == x {
        run_end(s, i + 1, x)
    } else {
        i
    }
}

/// The end of the line that holds `i`: the first line feed from `i` on,
/// or the end of the input (`i` itself when it lies past the end).
pub open spec fn eol(s: Seq<u8>, i: int) -> int
    decreases s.len() - i,
{
    if 0 <= i < s.len() && s[i] != NL {
        eol(s, i + 1)
    } else {
        i
    }
}

pub proof fn lemma_skip_blanks(s: Seq<u8>, i: int)
    requires
        0 <= i,
    ensures
        i <= skip_blanks(s, i),
        i <= s.len() ==> skip_blanks(s, i) <= s.len(),
        forall|k: int| i <= k < skip_blanks(s, i) ==> s[k] == SPACE || s[k] == TAB,
    decreases s.len() - i,
{
    if 0 <= i < s.len() && (s[i] == SPACE || s[i] == TAB) {
        lemma_skip_blanks(s, i + 1);
    }
}

pub proof fn lemma_ident_end(s: Seq<u8>, i: int)
    requires
        0 <= i,
    ensures
        i <= ident_end(s, i),
        i <= s.len() ==> ident_end(s, i) <= s.len(),
        forall|k: int| i <= k < ident_end(s, i) ==> ident_byte(s[k]),
    decreases s.len() - i,
{
    if 0 <= i < s.len() && ident_byte(s[i]) {
        lemma_ident_end(s, i + 1);
    }
}

pub proof fn lemma_run_end(s: Seq<u8>, i: int, x: u8)
    requires
        0 <= i,
    ensures
        i <= run_end(s, i, x),
        i <= s.len() ==> run_end(s, i, x) <= s.len(),
        forall|k: int| i <= k < run_end(s, i, x) ==> s[k] == x,
    decreases s.len() - i,
{
    if 0 <= i < s.len() && s[i] == x {
        lemma_run_end(s, i + 1, x);
    }
}

pub proof fn lemma_eol(s: Seq<u8>, i: int)
    requires
        0 <= i,
    ensures
        i <= eol(s, i),
        i <= s.len() ==> eol(s, i) <= s.len(),
        i > s.len() ==> eol(s, i) == i,
        eol(s, i) < s.len() ==> s[eol(s, i)] == NL,
        forall|k: int| i <= k < eol(s, i) ==> s[k] != NL,
    decreases s.len() - i,
{
    if 0 <= i < s.len() && s[i] != NL {
        lemma_eol(s, i + 1);
    }
}

/// `skip_blanks` run over a slice.
fn blanks_from(s: &[u8], i: usize) -> (r: usize)
    requires
        i <= s@.len(),
    ensures
        r == skip_blanks(s@, i as int),
        i <= r <= s@.len(),
{
    proof {
        lemma_skip_blanks(s@, i as int);
    }
    let mut k = i;
    while k < s.len() && (s[k] == SPACE || s[k] == TAB)
        invariant
            i <= k <= s@.len(),
            skip_blanks(s@, k as int) == skip_blanks(s@, i as int),
        decreases s@.len() - k,
    {
        k += 1;
    }
    k
}

/// `ident_end` run over a slice.
fn ident_from(s: &[u8], i: usize) -> (r: usize)
    requires
        i <= s@.len(),
    ensures
        r == ident_end(s@, i as int),
        i <= r <= s@.len(),
{
    proof {
        lemma_ident_end(s@, i as int);
    }
    let mut k = i;
    while k < s.len() && is_ident_byte(s[k])
        invariant
            i <= k <= s@.len(),
            ident_end(s@, k as int) == ident_end(s@, i as int),
        decreases s@.len() - k,
    {
        k += 1;
    }
    k
}

/// `run_end` run over a slice.
fn run_from(s: &[u8], i: usize, x: u8) -> (r: usize)
    requires
        i <= s@.len(),
    ensures
        r == run_end(s@, i as int, x),
        i <= r <= s@.len(),
{
    proof {
        lemma_run_end(s@, i as int, x);
    }
    let mut k = i;
    while k < s.len() && s[k] == x
        invariant
            i <= k <= s@.len(),
            run_end(s@, k as int, x) == run_end(s@, i as int, x),
        decreases s@.len() - k,
    {
        k += 1;
    }
    k
}

/// Whether `s[index]` is a `{` that opens an attribute list: after an
/// optional `:` and optional blanks come `#x`, `.x` or `key=`.
pub open spec fn attrs_at(s: Seq<u8>, index: int) -> bool {
    let c = index + 1;
    let i = skip_blanks(s, if c < s.len() && s[c] == COLON { c + 1 } else { c });
    &&& 0 <= index < s.len()
    &&& s[index] == LBRACE
    &&& if i < s.len() && (s[i] == HASH || s[i] == DOT) {
        i + 1 < s.len() && !space(s[i + 1]) && s[i + 1] != RBRACE
    } else {
        i < s.len() && ident_byte(s[i]) && ident_end(s, i) < s.len() && s[ident_end(s, i)] == EQ
    }
}

/// Whether `bytes[index]` is a `{` that starts an attribute list: after
/// an optional `:` (the deprecated Python-Markdown `attr_list` colon) and
/// optional blanks comes `#x`, `.x`, or `key=`.
pub fn looks_like_attributes(bytes: &[u8], index: usize) -> (r: bool)
    ensures
        r == attrs_at(bytes@, index as int),
{
    if index >= bytes.len() || bytes[index] != LBRACE {
        return false;
    }
    let mut i = index + 1;
    if i < bytes.len() && bytes[i] == COLON {
        i += 1;
    }
    let i = blanks_from(bytes, i);
    if i < bytes.len() && (bytes[i] == HASH || bytes[i] == DOT) {
        i + 1 < bytes.len() && !is_space(bytes[i + 1]) && bytes[i + 1] != RBRACE
    } else if i < bytes.len() && is_ident_byte(bytes[i]) {
        let j = ident_from(bytes, i);
        j < bytes.len() && bytes[j] == EQ
    } else {
        false
    }
}

/// A dotted name `ident(.ident)*` from `i`: where it ends and how many
/// dots it holds; `None` when a segment does not start with a letter.
pub open spec fn dotted_name(s: Seq<u8>, i: int) -> Option<(int, nat)>
    decreases s.len() - i,
{
    if 0 <= i < s.len() && ident_start(s[i]) {
        let j = ident_end(s, i);
        if j < s.len() && s[j] == DOT {
            proof {
                lemma_ident_end(s, i);
            }
            match dotted_name(s, j + 1) {
                Some((e, d)) => Some((e, d + 1)),
                None => None,
            }
        } else {
            Some((j, 0))
        }
    } else {
        None
    }
}

/// Whether the line at `index` is a foreign directive head: three or more
/// `:`, optional blanks, a dotted name with at least one dot, optional
/// blanks, then the end of the line.
pub open spec fn foreign_directive_at(s: Seq<u8>, index: int) -> bool {
    let c = run_end(s, index, COLON);
    &&& c - index >= 3
    &&& match dotted_name(s, skip_blanks(s, c)) {
        Some((e, d)) => d > 0 && (skip_blanks(s, e) >= s.len() || s[skip_blanks(s, e)] == NL),
        None => false,
    }
}

pub proof fn lemma_dotted_name(s: Seq<u8>, i: int)
    requires
        0 <= i,
    ensures
        dotted_name(s, i) matches Some((e, d)) ==> i < e <= s.len() && d < e - i,
    decreases s.len() - i,
{
    if 0 <= i < s.len() && ident_start(s[i]) {
        lemma_ident_end(s, i + 1);
        let j = ident_end(s, i);
        if j < s.len() && s[j] == DOT {
            lemma_dotted_name(s, j + 1);
        }
    }
}

/// `dotted_name` run over a slice.
fn dotted_from(s: &[u8], i: usize) -> (r: Option<(usize, usize)>)
    requires
        i <= s@.len(),
    ensures
        match r {
            Some((e, d)) => dotted_name(s@, i as int) == Some((e as int, d as nat)),
            None => dotted_name(s@, i as int) is None,
        },
    decreases s@.len() - i,
{
    proof {
        lemma_dotted_name(s@, i as int);
    }
    if i < s.len() && is_ident_start(s[i]) {
        let j = ident_from(s, i);
        if j < s.len() && s[j] == DOT {
            match dotted_from(s, j + 1) {
                Some((e, d)) => {
                    proof {
                        lemma_dotted_name(s@, j + 1);
                    }
                    Some((e, d + 1))
                },
                None => None,
            }
        } else {
            Some((j, 0))
        }
    } else {
        None
    }
}

/// Whether the line at `index` (its first non-blank byte) is a foreign
/// directive head: three or more `:`, optional blanks, a dotted name
/// `ident(.ident)+`, optional blanks, then the end of the line.
pub fn is_foreign_directive(bytes: &[u8], index: usize) -> (r: bool)
    ensures
        r == foreign_directive_at(bytes@, index as int),
{
    if index >= bytes.len() {
        return false;
    }
    let c = run_from(bytes, index, COLON);
    if c - index < 3 {
        return false;
    }
    let i = blanks_from(bytes, c);
    proof {
        lemma_dotted_name(bytes@, i as int);
    }
    match dotted_from(bytes, i) {
        Some((e, d)) => {
            let k = blanks_from(bytes, e);
            d > 0 && (k >= bytes.len() || bytes[k] == NL)
        },
        None => false,
    }
}

/// Index of the end of the current line: the `\n`, or the end of input.
pub fn line_end(bytes: &[u8], index: usize) -> (r: usize)
    ensures
        r == eol(bytes@, index as int),
        index <= r,
        index <= bytes@.len() ==> r <= bytes@.len(),
        r < bytes@.len() ==> bytes@[r as int] == NL,
        forall|k: int| index <= k < r ==> bytes@[k] != NL,
{
    proof {
        lemma_eol(bytes@, index as int);
    }
    let mut i = index;
    while i < bytes.len() && bytes[i] != NL
        invariant
            index <= i,
            eol(bytes@, i as int) == eol(bytes@, index as int),
        decreases bytes@.len() - i,
    {
        i += 1;
    }
    i
}

/// Whether something other than blanks stands between the start of the
/// line that holds `index` and `index`.
pub open spec fn content_before(s: Seq<u8>, index: int) -> bool
    decreases index,
{
    if index <= 0 || s[index - 1] == NL {
        false
    } else if s[index - 1] == SPACE || s[index - 1] == TAB {
        content_before(s, index - 1)
    } else {
        true
    }
}

/// Where a display-math closing fence that starts at `i`, after its
/// dollars and blanks, leaves the scan: past one attribute list and the
/// blanks after it when `attributes` allows one, else at `i`.
pub open spec fn past_fence_attrs(s: Seq<u8>, i: int, attributes: bool) -> int {
    let end = eol(s, i);
    let f = find_from(s, i, end, RBRACE);
    if attributes && attrs_at(s, i) && f < end {
        skip_blanks(s, f + 1)
    } else {
        i
    }
}

/// Whether the display-math fence at `index` closes its block at the end
/// of a content line: at least `size` dollars, then up to the end of the
/// line only blanks and, when `attributes` allows it, one attribute list;
/// and something other than blanks before the fence on its line.
pub open spec fn math_closes_line_spec(s: Seq<u8>, index: int, size: int, attributes: bool) -> bool {
    let d = run_end(s, index, DOLLAR);
    let i = skip_blanks(s, d);
    &&& content_before(s, index)
    &&& d - index >= size
    &&& past_fence_attrs(s, i, attributes) == eol(s, i)
}

/// Whether the display-math fence at `index` closes its block at the end of
/// a content line (`\end{matrix} \right.$$`): `bytes[index]` starts a run
/// of at least `size` `$`, followed up to the end of the line only by
/// blanks and at most one attribute list, *and* the line already holds
/// content before it. A `$$` alone on its line is the ordinary closing
/// fence, which the fence states handle.
pub fn math_closes_line(bytes: &[u8], index: usize, size: usize, attributes: bool) -> (r: bool)
    requires
        index <= bytes@.len(),
    ensures
        r == math_closes_line_spec(bytes@, index as int, size as int, attributes),
{
    let mut before = index;
    let mut content = false;
    let mut done = false;
    while !done && before > 0
        invariant
            before <= index <= bytes@.len(),
            done ==> content == content_before(bytes@, index as int),
            !done ==> content_before(bytes@, before as int) == content_before(bytes@, index as int),
            !done ==> !content,
        decreases before,
    {
        before -= 1;
        if bytes[before] == NL {
            done = true;
        } else if bytes[before] != SPACE && bytes[before] != TAB {
            content = true;
            done = true;
        }
    }
    if !content {
        return false;
    }
    let d = run_from(bytes, index, DOLLAR);
    if d - index < size {
        return false;
    }
    let mut i = blanks_from(bytes, d);
    let end = line_end(bytes, i);
    if attributes && looks_like_attributes(bytes, i) {
        let f = find_byte(bytes, i, end, RBRACE);
        if f < end {
            i = blanks_from(bytes, f + 1);
        }
    }
    i == end
}

} // verus!
