//! Inline nodes to their canonical spelling: the pieces of the printer
//! that decide a spelling from the node alone.

use vstd::prelude::*;
use vstd::string::*;
use vstd::utf8::*;
use crate::attrs::Attrs;
use crate::head::back_byte;
use crate::node::{item_models, RefItem, RefItemModel, Side};
use crate::out::Out;
use crate::text::{
    alnum, alpha, alphanumeric, char_is_alphanumeric, find_byte, find_from, has_at, is_alnum,
    is_alpha, lemma_find_from, lemma_slice_valid, lemma_trim_start, owned, push_range, range_eq,
    skip_ws, space, starts_at, string_of, trim_start, ws_at, ws_len, BANG, BSL, DASH, GT, LT, NL,
    QMARK, SLASH, LPAREN, RPAREN, TICK, SPACE, PIPE, COLON, UNDERSCORE, PLUS, QUOTE, char_before,
    join_into,
};

verus! {

broadcast use vstd::utf8::encode_utf8_valid_utf8, vstd::utf8::encode_utf8_decode_utf8;

/// The bytes of the word of an aside's side.
pub open spec fn side_word(side: Side) -> Seq<u8> {
    match side {
        Side::Left => "left".spec_bytes(),
        Side::Right => "right".spec_bytes(),
        Side::Outer => "outer".spec_bytes(),
        Side::Inner => "inner".spec_bytes(),
    }
}

/// The word of an aside's side.
pub fn side_name(side: Side) -> (r: &'static str)
    ensures
        r@ == match side {
            Side::Left => "left"@,
            Side::Right => "right"@,
            Side::Outer => "outer"@,
            Side::Inner => "inner"@,
        },
        r.spec_bytes() == side_word(side),
{
    match side {
        Side::Left => "left",
        Side::Right => "right",
        Side::Outer => "outer",
        Side::Inner => "inner",
    }
}

/// The side an aside prints reads back as that side, written whole or
/// by its first letter (`left`, `l`).
pub proof fn lemma_side_round_trip(side: Side)
    ensures
        crate::lower::side_of(side_word(side)) == Some(side),
        crate::lower::side_of(side_word(side).subrange(0, 1)) == Some(side),
{
    reveal_strlit("left");
    ascii_word("left");
    reveal_strlit("l");
    ascii_word("l");
    reveal_strlit("right");
    ascii_word("right");
    reveal_strlit("r");
    ascii_word("r");
    reveal_strlit("outer");
    ascii_word("outer");
    reveal_strlit("o");
    ascii_word("o");
    reveal_strlit("inner");
    ascii_word("inner");
    reveal_strlit("i");
    ascii_word("i");
    assert("left".spec_bytes().subrange(0, 1) =~= "l".spec_bytes());
    assert("right".spec_bytes().subrange(0, 1) =~= "r".spec_bytes());
    assert("outer".spec_bytes().subrange(0, 1) =~= "o".spec_bytes());
    assert("inner".spec_bytes().subrange(0, 1) =~= "i".spec_bytes());
}

/// The bytes of an ASCII literal are its characters.
proof fn ascii_word(w: &str)
    requires
        is_ascii(w),
    ensures
        w.spec_bytes().len() == w@.len(),
        forall|k: int| 0 <= k < w@.len() ==> #[trigger] w.spec_bytes()[k] == w@[k] as u8,
{
    vstd::string::is_ascii_spec_bytes(w);
}

/// Whether a character keeps a reference sigil that follows it from
/// firing: `@` fires only after a non-word character that is not one of
/// `@/:.-`, so a reference printed right after such a character needs a
/// space before its sigil.
pub open spec fn blocks_sigil_spec(prev: char) -> bool {
    alphanumeric(prev) || prev == '_' || prev == '@' || prev == '/' || prev == ':' || prev == '.'
        || prev == '-'
}

/// The X4 guard: `@` fires only after a non-word character that is not
/// one of `@/:.-`, so a reference printed right after such a character
/// (`text.` then `[^key]`) needs a space before its sigil.
pub fn blocks_sigil(prev: char) -> (r: bool)
    ensures
        r == blocks_sigil_spec(prev),
{
    char_is_alphanumeric(prev) || prev == '_' || prev == '@' || prev == '/' || prev == ':' || prev
        == '.' || prev == '-'
}

// ---------------------------------------------------------------------------
// HTML tags
// ---------------------------------------------------------------------------

/// Whether `x` occurs in `s[i..j]`.
pub open spec fn has_byte(s: Seq<u8>, i: int, j: int, x: u8) -> bool {
    exists|k: int| i <= k < j && s[k] == x
}

/// Whether `s[k..k + 2]` is `--`.
pub open spec fn dash_pair(s: Seq<u8>, k: int) -> bool {
    s[k] == DASH && s[k + 1] == DASH
}

/// Whether `--` occurs in `s[i..j]`.
pub open spec fn has_dashes(s: Seq<u8>, i: int, j: int) -> bool {
    exists|k: int| i <= k && k + 1 < j && #[trigger] dash_pair(s, k)
}

/// The first position from `i` below `j` that holds neither an ASCII
/// letter or digit nor `-`.
pub open spec fn name_end(s: Seq<u8>, i: int, j: int) -> int
    decreases j - i,
{
    if i < j && (alnum(s[i]) || s[i] == DASH) {
        name_end(s, i + 1, j)
    } else {
        i
    }
}

/// Whether `b` is one inline HTML construct as CommonMark's `html_text`
/// reads it: `<`, an inside, `>`. The inside is a comment `!--…--` with
/// no `--` in its body; a processing instruction or declaration (`?` or
/// `!` first) with no `>` after it; or a tag name (an ASCII letter, then
/// letters, digits and `-`) after an optional `/`, followed for a closing
/// tag by whitespace only, and for an open tag by attributes holding no
/// `<` or `>` before the trailing slashes.
pub open spec fn html_tag_spec(b: Seq<u8>) -> bool {
    let n = b.len() as int;
    let i0 = 1int;
    let i1 = n - 1;
    let slash = i0 < i1 && b[i0] == SLASH;
    let s0 = if slash {
        i0 + 1
    } else {
        i0
    };
    let e = name_end(b, s0, i1);
    if !(n >= 3 && b[0] == LT && b[n - 1] == GT) {
        false
    } else if i1 - i0 >= 3 && b[i0] == BANG && b[i0 + 1] == DASH && b[i0 + 2] == DASH {
        i1 - i0 >= 2 && b[i1 - 2] == DASH && b[i1 - 1] == DASH && !has_dashes(b, i0 + 3, i1 - 2)
    } else if i0 < i1 && (b[i0] == QMARK || b[i0] == BANG) {
        !has_byte(b, i0 + 1, i1, GT)
    } else if e == s0 || !alpha(b[s0]) {
        false
    } else if slash {
        trim_start(b, e, i1) == i1
    } else {
        let t = back_byte(b, e, i1, SLASH);
        !has_byte(b, e, t, GT) && !has_byte(b, e, t, LT)
    }
}

/// Whether `x` occurs in `s[i..j]`.
fn find_in(s: &[u8], i: usize, j: usize, x: u8) -> (r: bool)
    requires
        i <= j <= s@.len(),
    ensures
        r == has_byte(s@, i as int, j as int, x),
{
    let k = find_byte(s, i, j, x);
    k < j
}

/// Whether `text` is one inline HTML construct as CommonMark's
/// `html_text` reads it: an open tag, a closing tag, a comment, a
/// processing instruction, a declaration or a CDATA section, nothing
/// around it.
#[verifier::loop_isolation(false)]
pub fn is_html_tag(text: &str) -> (r: bool)
    ensures
        r == html_tag_spec(text.spec_bytes()),
{
    let b = text.as_bytes();
    let n = b.len();
    if n < 3 || b[0] != LT || b[n - 1] != GT {
        return false;
    }
    let i0: usize = 1;
    let i1: usize = n - 1;
    let comment = i1 - i0 >= 3 && b[i0] == BANG && b[i0 + 1] == DASH && b[i0 + 2] == DASH;
    if comment {
        if !(i1 - i0 >= 2 && b[i1 - 2] == DASH && b[i1 - 1] == DASH) {
            return false;
        }
        if i1 - 2 < i0 + 3 {
            // `<!-->` and `<!--->`: comments with an empty body.
            return true;
        }
        let mut k = i0 + 3;
        while k + 1 < i1 - 2
            invariant
                i0 + 3 <= k,
                k <= i1 - 2,
                i1 < b@.len(),
                forall|m: int| i0 + 3 <= m < k ==> !#[trigger] dash_pair(b@, m),
            decreases i1 - k,
        {
            if b[k] == DASH && b[k + 1] == DASH {
                proof {
                    assert(dash_pair(b@, k as int));
                }
                return false;
            }
            k += 1;
        }
        return true;
    }
    if i0 < i1 && (b[i0] == QMARK || b[i0] == BANG) {
        return !find_in(b, i0 + 1, i1, GT);
    }
    let slash = i0 < i1 && b[i0] == SLASH;
    let s0 = if slash {
        i0 + 1
    } else {
        i0
    };
    let mut e = s0;
    while e < i1 && (is_alnum(b[e]) || b[e] == DASH)
        invariant
            s0 <= e <= i1,
            i1 < b@.len(),
            name_end(b@, e as int, i1 as int) == name_end(b@, s0 as int, i1 as int),
        decreases i1 - e,
    {
        e += 1;
    }
    if e == s0 || !is_alpha(b[s0]) {
        return false;
    }
    if slash {
        return skip_ws(b, e, i1) == i1;
    }
    let mut t = i1;
    while t > e && b[t - 1] == SLASH
        invariant
            e <= t <= i1,
            i1 < b@.len(),
            back_byte(b@, e as int, t as int, SLASH) == back_byte(b@, e as int, i1 as int, SLASH),
        decreases t - e,
    {
        t -= 1;
    }
    !find_in(b, e, t, GT) && !find_in(b, e, t, LT)
}

/// The string of some ASCII bytes.
pub fn ascii(bytes: Vec<u8>) -> (r: String)
    requires
        forall|k: int| 0 <= k < bytes@.len() ==> #[trigger] bytes@[k] < 0x80,
    ensures
        owned(r) == bytes@,
{
    proof {
        crate::text::lemma_ascii_valid(bytes@);
    }
    string_of(bytes)
}

// ---------------------------------------------------------------------------
// Escaping byte by byte
// ---------------------------------------------------------------------------

/// Replacing an ASCII byte of valid UTF-8 by ASCII bytes keeps it valid.
pub proof fn lemma_swap_ascii(pre: Seq<u8>, x: u8, rest: Seq<u8>, rep: Seq<u8>)
    requires
        valid_utf8(pre + seq![x] + rest),
        x < 0x80,
        forall|k: int| 0 <= k < rep.len() ==> #[trigger] rep[k] < 0x80,
    ensures
        valid_utf8(pre + rep + rest),
{
    let c = pre + seq![x] + rest;
    let p = pre.len() as int;
    assert(c[p] == x);
    crate::text::lemma_after_ascii(c, p + 1);
    lemma_slice_valid(c, 0, p);
    lemma_slice_valid(c, p + 1, c.len() as int);
    assert(c.subrange(0, p) =~= pre);
    assert(c.subrange(p + 1, c.len() as int) =~= rest);
    crate::text::lemma_ascii_valid(rep);
    vstd::utf8::valid_utf8_concat(pre, rep);
    vstd::utf8::valid_utf8_concat(pre + rep, rest);
}

// ---------------------------------------------------------------------------
// Link destinations
// ---------------------------------------------------------------------------

/// Whether the parentheses of `s` from `i` on, `depth` being open
/// already, never close more than they opened and end balanced.
pub open spec fn parens_ok(s: Seq<u8>, i: int, depth: int) -> bool
    decreases s.len() - i,
{
    if i < 0 || i >= s.len() {
        depth == 0
    } else {
        let d = if s[i] == LPAREN {
            depth + 1
        } else if s[i] == RPAREN {
            depth - 1
        } else {
            depth
        };
        d >= 0 && parens_ok(s, i + 1, d)
    }
}

/// Whether a control character (general category `Cc`: U+0000 to U+001F,
/// U+007F to U+009F) starts at `k`.
pub open spec fn control_at(s: Seq<u8>, k: int) -> bool {
    s[k] < 0x20 || s[k] == 0x7f || (s[k] == 0xc2 && k + 1 < s.len() && 0x80 <= s[k + 1] <= 0x9f)
}

/// Whether a character that a bare destination cannot hold starts at
/// `k`: whitespace, a control character, `<` or `>`.
pub open spec fn bad_at(s: Seq<u8>, k: int) -> bool {
    ws_len(s, k) > 0 || control_at(s, k) || s[k] == LT || s[k] == GT
}

/// Whether a destination is written bare: one run of non-space
/// characters with balanced parentheses, no `<` or `>`.
pub open spec fn bare_destination(s: Seq<u8>) -> bool {
    &&& s.len() > 0
    &&& parens_ok(s, 0, 0)
    &&& forall|k: int| 0 <= k < s.len() ==> !#[trigger] bad_at(s, k)
}

/// How a byte of a destination is written between `<` and `>`.
pub open spec fn dest_byte(x: u8) -> Seq<u8> {
    if x == BSL {
        seq![BSL, BSL]
    } else if x == LT {
        seq![BSL, LT]
    } else if x == GT {
        seq![BSL, GT]
    } else if x == NL {
        seq![0x25u8, 0x30u8, 0x41u8]
    } else {
        seq![x]
    }
}

/// The bytes of a destination written between `<` and `>`.
pub open spec fn dest_esc(v: Seq<u8>) -> Seq<u8>
    decreases v.len(),
{
    if v.len() == 0 {
        seq![]
    } else {
        dest_esc(v.drop_last()) + dest_byte(v.last())
    }
}

/// A link destination as CommonMark reads it back.
pub open spec fn destination_spec(s: Seq<u8>) -> Seq<u8> {
    if bare_destination(s) {
        s
    } else {
        seq![LT] + dest_esc(s) + seq![GT]
    }
}

/// A link destination as CommonMark reads it back: bare when it is one
/// run of non-space characters with balanced parentheses, else `<…>`
/// with `\`, `<`, `>` escaped and a line break written `%0A`.
pub fn destination(u: &str) -> (r: String)
    ensures
        owned(r) == destination_spec(u.spec_bytes()),
{
    let b = u.as_bytes();
    let n = b.len();
    let mut depth: usize = 0;
    let mut ok = true;
    let mut i: usize = 0;
    while i < n && ok
        invariant
            n == b@.len(),
            0 <= i <= n,
            depth <= i,
            ok ==> parens_ok(b@, 0, 0) == parens_ok(b@, i as int, depth as int),
            !ok ==> !parens_ok(b@, 0, 0),
        decreases n - i,
    {
        if b[i] == LPAREN {
            depth += 1;
        } else if b[i] == RPAREN {
            if depth == 0 {
                ok = false;
            } else {
                depth -= 1;
            }
        }
        i += 1;
    }
    let balanced = ok && depth == 0;
    let mut clean = true;
    let mut k: usize = 0;
    while k < n && clean
        invariant
            n == b@.len(),
            0 <= k <= n,
            clean ==> forall|m: int| 0 <= m < k ==> !#[trigger] bad_at(b@, m),
            !clean ==> exists|m: int| 0 <= m < n && #[trigger] bad_at(b@, m),
        decreases n - k,
    {
        let x = b[k];
        let ctrl = x < 0x20 || x == 0x7f || (x == 0xc2 && k + 1 < n && 0x80 <= b[k + 1] && b[k
            + 1] <= 0x9f);
        if ws_at(b, k) > 0 || ctrl || x == LT || x == GT {
            proof {
                assert(bad_at(b@, k as int));
            }
            clean = false;
        }
        k += 1;
    }
    if n > 0 && balanced && clean {
        return u.to_owned();
    }
    let mut out: Vec<u8> = Vec::new();
    out.push(LT);
    let mut j: usize = 0;
    proof {
        assert(out@ + b@.subrange(0, n as int) =~= seq![LT] + b@);
        crate::text::lemma_ascii_valid(seq![LT]);
        vstd::utf8::valid_utf8_concat(seq![LT], b@);
    }
    while j < n
        invariant
            n == b@.len(),
            0 <= j <= n,
            out@ == seq![LT] + dest_esc(b@.subrange(0, j as int)),
            valid_utf8(out@ + b@.subrange(j as int, n as int)),
        decreases n - j,
    {
        let x = b[j];
        let ghost pre = out@;
        let ghost rest = b@.subrange(j + 1, n as int);
        proof {
            assert(b@.subrange(j as int, n as int) =~= seq![x] + rest);
            assert(pre + b@.subrange(j as int, n as int) =~= pre + seq![x] + rest);
            assert(b@.subrange(0, j + 1).drop_last() =~= b@.subrange(0, j as int));
        }
        if x == BSL {
            out.push(BSL);
            out.push(BSL);
        } else if x == LT {
            out.push(BSL);
            out.push(LT);
        } else if x == GT {
            out.push(BSL);
            out.push(GT);
        } else if x == NL {
            out.push(0x25);
            out.push(0x30);
            out.push(0x41);
        } else {
            out.push(x);
        }
        proof {
            assert(out@ =~= pre + dest_byte(x));
            if x == BSL || x == LT || x == GT || x == NL {
                lemma_swap_ascii(pre, x, rest, dest_byte(x));
            } else {
                assert(pre + dest_byte(x) + rest =~= pre + seq![x] + rest);
            }
            assert(out@ + b@.subrange(j + 1, n as int) =~= pre + dest_byte(x) + rest);
        }
        j += 1;
    }
    let ghost body = out@;
    out.push(GT);
    proof {
        assert(b@.subrange(0, n as int) =~= b@);
        assert(body + b@.subrange(n as int, n as int) =~= body);
        crate::text::lemma_ascii_valid(seq![GT]);
        vstd::utf8::valid_utf8_concat(body, seq![GT]);
        assert(out@ =~= body + seq![GT]);
    }
    string_of(out)
}

// ---------------------------------------------------------------------------
// Code spans
// ---------------------------------------------------------------------------

/// The length of the run of backticks that ends at `k`.
pub open spec fn tick_run(s: Seq<u8>, k: int) -> nat
    decreases k,
{
    if 0 < k <= s.len() && s[k - 1] == TICK {
        tick_run(s, k - 1) + 1
    } else {
        0
    }
}

/// The longest run of backticks in `s[..k]`.
pub open spec fn longest_run(s: Seq<u8>, k: int) -> nat
    decreases k,
{
    if k <= 0 {
        0
    } else if longest_run(s, k - 1) >= tick_run(s, k) {
        longest_run(s, k - 1)
    } else {
        tick_run(s, k)
    }
}

/// Whether a code span pads its text with a space on each side: the text
/// starts or ends with a backtick, or starts and ends with a space
/// without being all whitespace.
pub open spec fn code_pad(s: Seq<u8>) -> bool {
    let n = s.len() as int;
    ||| n > 0 && (s[0] == TICK || s[n - 1] == TICK)
    ||| n > 0 && s[0] == SPACE && s[n - 1] == SPACE && trim_start(s, 0, n) < n
}

/// A byte of a code span's text inside a pipe-table cell: `|` is written
/// `\|`.
pub open spec fn cell_byte(x: u8) -> Seq<u8> {
    if x == PIPE {
        seq![BSL, PIPE]
    } else {
        seq![x]
    }
}

/// The text of a code span inside a pipe-table cell.
pub open spec fn cell_esc(v: Seq<u8>) -> Seq<u8>
    decreases v.len(),
{
    if v.len() == 0 {
        seq![]
    } else {
        cell_esc(v.drop_last()) + cell_byte(v.last())
    }
}

/// The spelling of a code span: a backtick run longer than any inside,
/// padded when the text needs it, `|` written `\|` in a table cell.
pub open spec fn code_span_text(s: Seq<u8>, in_cell: bool) -> Seq<u8> {
    let fence = Seq::new(longest_run(s, s.len() as int) + 1, |_k: int| TICK);
    let pad = if code_pad(s) {
        seq![SPACE]
    } else {
        seq![]
    };
    let body = if in_cell {
        cell_esc(s)
    } else {
        s
    };
    fence + pad + body + pad + fence
}

/// `|` written `\|` in the bytes of `text`.
fn escape_pipes(text: &str) -> (r: String)
    ensures
        owned(r) == cell_esc(text.spec_bytes()),
{
    let b = text.as_bytes();
    let n = b.len();
    let mut out: Vec<u8> = Vec::new();
    let mut j: usize = 0;
    proof {
        assert(out@ + b@.subrange(0, n as int) =~= b@);
    }
    while j < n
        invariant
            n == b@.len(),
            0 <= j <= n,
            out@ == cell_esc(b@.subrange(0, j as int)),
            valid_utf8(out@ + b@.subrange(j as int, n as int)),
        decreases n - j,
    {
        let x = b[j];
        let ghost pre = out@;
        let ghost rest = b@.subrange(j + 1, n as int);
        proof {
            assert(b@.subrange(j as int, n as int) =~= seq![x] + rest);
            assert(pre + b@.subrange(j as int, n as int) =~= pre + seq![x] + rest);
            assert(b@.subrange(0, j + 1).drop_last() =~= b@.subrange(0, j as int));
        }
        if x == PIPE {
            out.push(BSL);
            out.push(PIPE);
        } else {
            out.push(x);
        }
        proof {
            assert(out@ =~= pre + cell_byte(x));
            if x == PIPE {
                lemma_swap_ascii(pre, x, rest, cell_byte(x));
            } else {
                assert(pre + cell_byte(x) + rest =~= pre + seq![x] + rest);
            }
            assert(out@ + b@.subrange(j + 1, n as int) =~= pre + cell_byte(x) + rest);
        }
        j += 1;
    }
    proof {
        assert(b@.subrange(0, n as int) =~= b@);
        assert(out@ + b@.subrange(n as int, n as int) =~= out@);
    }
    string_of(out)
}

/// A run of `n + 1` backticks.
fn ticks(n: usize) -> (r: String)
    ensures
        owned(r) == Seq::new(n as nat + 1, |_k: int| TICK),
{
    let mut v: Vec<u8> = Vec::new();
    v.push(TICK);
    let mut k: usize = 0;
    while k < n
        invariant
            0 <= k <= n,
            v@ == Seq::new(k as nat + 1, |_m: int| TICK),
        decreases n - k,
    {
        v.push(TICK);
        k += 1;
        assert(v@ =~= Seq::new(k as nat + 1, |_m: int| TICK));
    }
    proof {
        crate::text::lemma_ascii_valid(v@);
    }
    string_of(v)
}

/// A code span with a backtick run longer than any inside, padded when
/// the text starts or ends with a backtick. In a pipe-table cell a `|` is
/// written `\|` (GFM splits cells on it even inside code, and decodes the
/// escape).
pub fn code_span(out: &mut Out, text: &str, in_cell: bool)
    requires
        old(out).wf(),
    ensures
        final(out).wf(),
        final(out)@.text == old(out)@.text + code_span_text(text.spec_bytes(), in_cell),
        final(out)@.lookup == old(out)@.lookup,
{
    let b = text.as_bytes();
    let n = b.len();
    let mut run: usize = 0;
    let mut best: usize = 0;
    let mut k: usize = 0;
    while k < n
        invariant
            n == b@.len(),
            0 <= k <= n,
            run == tick_run(b@, k as int),
            best == longest_run(b@, k as int),
            run <= k,
            best <= k,
        decreases n - k,
    {
        if b[k] == TICK {
            run += 1;
        } else {
            run = 0;
        }
        if run > best {
            best = run;
        }
        k += 1;
    }
    let ts = skip_ws(b, 0, n);
    let pad = (n > 0 && (b[0] == TICK || b[n - 1] == TICK)) || (n > 0 && b[0] == SPACE && b[n
        - 1] == SPACE && ts < n);
    let fence = ticks(best);
    let ghost start = out@.text;
    out.push(fence.as_str());
    let space = ascii(vec![SPACE]);
    if pad {
        out.push(space.as_str());
    }
    if in_cell {
        let escaped = escape_pipes(text);
        out.push(escaped.as_str());
    } else {
        out.push(text);
    }
    if pad {
        out.push(space.as_str());
    }
    out.push(fence.as_str());
    proof {
        assert(final(out)@.text =~= start + code_span_text(b@, in_cell));
    }
}

// ---------------------------------------------------------------------------
// Icon shortcodes
// ---------------------------------------------------------------------------

/// Whether `t` is an icon shortcode `:name:` of a Material icon set, the
/// name made of `[a-z0-9_+-]`, and `a` is exactly `.icon media=web`.
pub open spec fn icon_spec(t: Seq<u8>, a: crate::attrs::AttrsModel) -> bool {
    let n = t.len() as int;
    &&& n >= 3
    &&& t[0] == COLON
    &&& t[n - 1] == COLON
    &&& forall|k: int| 1 <= k < n - 1 ==> crate::sugar::name_byte(#[trigger] t[k])
    &&& crate::sugar::icon_name(t.subrange(1, n - 1))
    &&& a.id is None
    &&& a.classes == seq!["icon".spec_bytes()]
    &&& a.kv == seq![("media".spec_bytes(), "web".spec_bytes())]
}

/// The name of a shortcode ends at the first byte that is no name byte.
proof fn lemma_name_runs_to(t: Seq<u8>, i: int, e: int)
    requires
        0 <= i <= e < t.len(),
        forall|k: int| i <= k < e ==> crate::sugar::name_byte(#[trigger] t[k]),
        !crate::sugar::name_byte(t[e]),
    ensures
        crate::sugar::name_end(t, i) == e,
    decreases e - i,
{
    if i < e {
        lemma_name_runs_to(t, i + 1, e);
    }
}

/// An icon printed as its shortcode reads back, on its own, as an icon
/// shortcode spanning the whole text.
pub proof fn lemma_icon_reads_back(t: Seq<u8>, a: crate::attrs::AttrsModel)
    requires
        icon_spec(t, a),
    ensures
        crate::sugar::shortcode_spec(t, 0) == Some((t.len() as int, None::<Seq<char>>)),
{
    let n = t.len() as int;
    lemma_name_runs_to(t, 1, n - 1);
}

/// Whether `s` is the bytes of `lit`.
fn is_str(s: &String, lit: &str) -> (r: bool)
    ensures
        r == (owned(*s) == lit.spec_bytes()),
{
    let b = s.as_str().as_bytes();
    let r = range_eq(b, 0, b.len(), lit.as_bytes());
    proof {
        assert(b@.subrange(0, b@.len() as int) =~= b@);
    }
    r
}

/// An inline of a span's content as the icon check reads it: a run of
/// text, or any other inline.
#[derive(Clone, Copy, Debug)]
pub enum Piece<'a> {
    Text(&'a str),
    Other,
}

/// Whether a span with this content and these attributes is an icon:
/// its content is one text, an icon shortcode.
pub open spec fn icon_content(c: Seq<Piece>, a: crate::attrs::AttrsModel) -> bool {
    c.len() == 1 && match c[0] {
        Piece::Text(t) => icon_spec(t.spec_bytes(), a),
        Piece::Other => false,
    }
}

/// The shortcode of an icon span: its content is one text of the form
/// `:material-…:` (one of the four Material sets) and its attributes are
/// exactly `.icon media=web`.
#[verifier::loop_isolation(false)]
pub fn icon_shortcode<'a>(content: &[Piece<'a>], attrs: &Attrs) -> (r: Option<&'a str>)
    ensures
        r is Some <==> icon_content(content@, attrs@),
        r matches Some(s) ==> content@[0] == Piece::Text(s),
{
    if content.len() != 1 {
        return None;
    }
    let text = match content[0] {
        Piece::Text(t) => t,
        Piece::Other => {
            return None;
        },
    };
    let t = text.as_bytes();
    let n = t.len();
    if n < 3 || t[0] != COLON || t[n - 1] != COLON {
        return None;
    }
    let mut k: usize = 1;
    while k < n - 1
        invariant
            n == t@.len(),
            n >= 3,
            1 <= k <= n - 1,
            forall|m: int| 1 <= m < k ==> crate::sugar::name_byte(#[trigger] t@[m]),
        decreases n - 1 - k,
    {
        let x = t[k];
        if !((x >= 0x61 && x <= 0x7a) || (x >= 0x30 && x <= 0x39) || x == UNDERSCORE || x == DASH
            || x == PLUS) {
            proof {
                assert(!crate::sugar::name_byte(t@[k as int]));
            }
            return None;
        }
        k += 1;
    }
    let mut name: Vec<u8> = Vec::new();
    push_range(&mut name, t, 1, n - 1);
    if !crate::sugar::is_icon_name(name.as_slice()) {
        return None;
    }
    if attrs.id.is_some() || attrs.classes.len() != 1 || attrs.kv.len() != 1 {
        proof {
            if attrs.classes@.len() != 1 {
                assert(attrs@.classes.len() != 1);
            }
            if attrs.kv@.len() != 1 {
                assert(attrs@.kv.len() != 1);
            }
        }
        return None;
    }
    let class_ok = is_str(&attrs.classes[0], "icon");
    let key_ok = is_str(&attrs.kv[0].0, "media");
    let value_ok = is_str(&attrs.kv[0].1, "web");
    proof {
        if class_ok {
            assert(attrs@.classes =~= seq!["icon".spec_bytes()]);
        } else {
            assert(attrs@.classes[0] != "icon".spec_bytes());
        }
        if key_ok && value_ok {
            assert(attrs@.kv =~= seq![("media".spec_bytes(), "web".spec_bytes())]);
        } else {
            assert(attrs@.kv[0] != ("media".spec_bytes(), "web".spec_bytes()));
        }
    }
    if class_ok && key_ok && value_ok {
        Some(text)
    } else {
        None
    }
}

// ---------------------------------------------------------------------------
// Progress bars
// ---------------------------------------------------------------------------

/// The canonical spelling of a progress bar without its attribute list,
/// `[=45% "label"]`, from the text of its value: the label quoted, the
/// quotes it held, which the recogniser cannot hold, dropped.
pub open spec fn progress_head_spec(value: Seq<u8>, label: Option<Seq<u8>>) -> Seq<u8> {
    "[=".spec_bytes() + value + "%".spec_bytes() + match label {
        Some(l) => " \"".spec_bytes() + crate::text::drop_byte(l, QUOTE) + "\"".spec_bytes(),
        None => Seq::<u8>::empty(),
    } + "]".spec_bytes()
}

/// `[=<value>% "label"]`, `value` being the text of the percentage.
pub fn progress_head(value: &str, label: Option<&str>) -> (r: String)
    ensures
        owned(r) == progress_head_spec(value.spec_bytes(), match label {
            Some(l) => Some(l.spec_bytes()),
            None => None,
        }),
{
    let mut v: Vec<u8> = Vec::new();
    proof {
        assert(valid_utf8(v@)) by {
            reveal_with_fuel(valid_utf8, 1);
        }
    }
    crate::diag::put(&mut v, "[=");
    crate::diag::put(&mut v, value);
    crate::diag::put(&mut v, "%");
    match label {
        Some(l) => {
            crate::diag::put(&mut v, " \"");
            let b = l.as_bytes();
            proof {
                vstd::utf8::is_char_boundary_start_end_of_seq(b@);
                assert(b@.subrange(0, b@.len() as int) =~= b@);
            }
            crate::text::drop_byte_into(&mut v, b, 0, b.len(), QUOTE);
            crate::diag::put(&mut v, "\"");
        },
        None => {},
    }
    crate::diag::put(&mut v, "]");
    proof {
        match label {
            Some(l) => {
                assert(v@ =~= progress_head_spec(value.spec_bytes(), Some(l.spec_bytes())));
            },
            None => {
                assert(v@ =~= progress_head_spec(value.spec_bytes(), None));
            },
        }
    }
    string_of(v)
}

// ---------------------------------------------------------------------------
// References
// ---------------------------------------------------------------------------

/// Whether a key opens with `doi:`, `http://` or `https://`.
pub open spec fn url_key(k: Seq<u8>) -> bool {
    has_at(k, 0, "doi:".spec_bytes()) || has_at(k, 0, "http://".spec_bytes()) || has_at(
        k,
        0,
        "https://".spec_bytes(),
    )
}

/// A byte of a key printed bare: an ASCII letter or digit, or one of
/// `_:.-`; in a DOI or URL key, also any byte but ASCII whitespace and
/// brackets.
pub open spec fn bare_key_byte(b: u8, url: bool) -> bool {
    alnum(b) || b == UNDERSCORE || b == COLON || b == 0x2e || b == DASH || (url && !space(b)
        && b != 0x5b && b != 0x5d && b != LPAREN && b != RPAREN)
}

/// Whether a key can be printed as `@key`: an ASCII letter, then key
/// bytes, ending on an ASCII letter or digit.
pub open spec fn bare_key_spec(k: Seq<u8>) -> bool {
    &&& k.len() >= 2
    &&& alpha(k[0])
    &&& alnum(k[k.len() - 1])
    &&& forall|i: int| 0 <= i < k.len() ==> #[trigger] bare_key_byte(k[i], url_key(k))
}

/// Whether a citation key prints bare, `@key`: it starts with a letter,
/// then holds `[A-Za-z0-9_:.-]` and ends on a letter or digit; `doi:` keys
/// and URLs may also hold `/` and the like. Anything else (a key that
/// starts with a digit) prints bracketed.
pub fn is_bare_key(key: &str) -> (r: bool)
    ensures
        r == bare_key_spec(key.spec_bytes()),
{
    let b = key.as_bytes();
    let url = starts_at(b, 0, "doi:".as_bytes()) || starts_at(b, 0, "http://".as_bytes())
        || starts_at(b, 0, "https://".as_bytes());
    if b.len() < 2 || !is_alpha(b[0]) || !is_alnum(b[b.len() - 1]) {
        return false;
    }
    let mut i: usize = 0;
    while i < b.len()
        invariant
            0 <= i <= b@.len(),
            b@ == key.spec_bytes(),
            url == url_key(b@),
            forall|k: int| 0 <= k < i ==> #[trigger] bare_key_byte(b@[k], url),
        decreases b@.len() - i,
    {
        let x = b[i];
        if !(is_alnum(x) || x == UNDERSCORE || x == COLON || x == 0x2e || x == DASH || (url
            && !crate::text::is_space(x) && x != 0x5b && x != 0x5d && x != LPAREN && x != RPAREN)) {
            proof {
                assert(!bare_key_byte(b@[i as int], url_key(b@)));
            }
            return false;
        }
        i += 1;
    }
    true
}

/// An item of a bracketed citation: `prefix ` before the key, `-` or `+`
/// for the year alone or the narrative form, then `, suffix`.
pub open spec fn item_text(it: RefItemModel) -> Seq<u8> {
    (match it.prefix {
        Some(p) => p + seq![SPACE],
        None => Seq::<u8>::empty(),
    }) + (if it.suppress_author {
        seq![DASH]
    } else if it.narrative {
        seq![PLUS]
    } else {
        Seq::<u8>::empty()
    }) + it.key + (match it.suffix {
        Some(x) => ", ".spec_bytes() + x,
        None => Seq::<u8>::empty(),
    })
}

/// How a reference prints: `@key` for one plain item whose key prints
/// bare, else `@[item; item]`.
pub open spec fn reference_spec(items: Seq<RefItemModel>, bracketed: bool) -> Seq<u8> {
    if items.len() == 1 && !bracketed && items[0].prefix is None && items[0].suffix is None
        && !items[0].suppress_author && !items[0].narrative && bare_key_spec(items[0].key) {
        seq![0x40u8] + items[0].key
    } else {
        "@[".spec_bytes() + crate::text::join(items.map_values(|it: RefItemModel| item_text(it)), "; ".spec_bytes())
            + "]".spec_bytes()
    }
}

/// The bytes of one item of a bracketed citation.
fn item_bytes(item: &RefItem) -> (r: Vec<u8>)
    ensures
        r@ == item_text(item@),
        valid_utf8(r@),
{
    let mut v: Vec<u8> = Vec::new();
    proof {
        assert(valid_utf8(v@)) by {
            reveal_with_fuel(valid_utf8, 1);
        }
    }
    match &item.prefix {
        Some(p) => {
            crate::diag::put(&mut v, p.as_str());
            crate::diag::put(&mut v, " ");
        },
        None => {},
    }
    if item.suppress_author {
        crate::diag::put(&mut v, "-");
    } else if item.narrative {
        crate::diag::put(&mut v, "+");
    }
    crate::diag::put(&mut v, item.key.as_str());
    match &item.suffix {
        Some(x) => {
            crate::diag::put(&mut v, ", ");
            crate::diag::put(&mut v, x.as_str());
        },
        None => {},
    }
    proof {
        lemma_one_byte_literals();
        assert(v@ =~= item_text(item@));
    }
    v
}

/// The one-byte literals the reference printer writes.
proof fn lemma_one_byte_literals()
    ensures
        " ".spec_bytes() == seq![SPACE],
        "-".spec_bytes() == seq![DASH],
        "+".spec_bytes() == seq![PLUS],
        "@".spec_bytes() == seq![0x40u8],
{
    reveal_strlit(" ");
    reveal_strlit("-");
    reveal_strlit("+");
    reveal_strlit("@");
    vstd::string::is_ascii_spec_bytes(" ");
    vstd::string::is_ascii_spec_bytes("-");
    vstd::string::is_ascii_spec_bytes("+");
    vstd::string::is_ascii_spec_bytes("@");
    assert(vstd::string::is_ascii(" "));
    assert(vstd::string::is_ascii("-"));
    assert(vstd::string::is_ascii("+"));
    assert(vstd::string::is_ascii("@"));
}

/// A reference `@key` or `@[items]`, a space first when the character
/// printed last would keep the `@` from firing.
pub fn reference(out: &mut Out, items: &[RefItem], bracketed: bool)
    requires
        old(out).wf(),
    ensures
        final(out).wf(),
        final(out)@.lookup == old(out)@.lookup,
        final(out)@.text == old(out)@.text + (if char_before(
            old(out)@.text,
            old(out)@.text.len() as int,
        ) matches Some(c) && blocks_sigil_spec(c) {
            seq![SPACE]
        } else {
            Seq::<u8>::empty()
        }) + reference_spec(item_models(items@), bracketed),
{
    let ghost t0 = out@.text;
    let guard = match out.last_char() {
        Some(c) => blocks_sigil(c),
        None => false,
    };
    if guard {
        out.push(" ");
    }
    let ghost t1 = out@.text;
    let ghost models = item_models(items@);
    proof {
        lemma_one_byte_literals();
        assert(t1 =~= t0 + (if guard {
            seq![SPACE]
        } else {
            Seq::<u8>::empty()
        }));
    }
    if items.len() == 1 && !bracketed && items[0].prefix.is_none() && items[0].suffix.is_none()
        && !items[0].suppress_author && !items[0].narrative && is_bare_key(items[0].key.as_str()) {
        out.push("@");
        out.push(items[0].key.as_str());
        proof {
            lemma_one_byte_literals();
            assert(models[0] == items@[0]@);
            assert(out@.text =~= t1 + reference_spec(models, bracketed));
        }
        return;
    }
    let mut parts: Vec<Vec<u8>> = Vec::new();
    let mut i: usize = 0;
    while i < items.len()
        invariant
            0 <= i <= items@.len(),
            models == item_models(items@),
            parts@.len() == i,
            forall|k: int| 0 <= k < i ==> (#[trigger] parts@[k])@ == item_text(models[k]),
            forall|k: int| 0 <= k < i ==> valid_utf8((#[trigger] parts@[k])@),
        decreases items@.len() - i,
    {
        let p = item_bytes(&items[i]);
        parts.push(p);
        i += 1;
    }
    let mut v: Vec<u8> = Vec::new();
    proof {
        assert(valid_utf8(v@)) by {
            reveal_with_fuel(valid_utf8, 1);
        }
    }
    crate::diag::put(&mut v, "@[");
    let sep = "; ".as_bytes();
    proof {
        assert(valid_utf8(sep@));
    }
    join_into(&mut v, &parts, sep);
    crate::diag::put(&mut v, "]");
    proof {
        assert(crate::text::views(parts@) =~= models.map_values(|it: RefItemModel| item_text(it)));
        assert(v@ =~= reference_spec(models, bracketed));
    }
    let s = string_of(v);
    out.push(s.as_str());
    proof {
        assert(out@.text =~= t1 + reference_spec(models, bracketed));
    }
}

} // verus!
