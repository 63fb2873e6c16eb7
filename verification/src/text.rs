//! Bytes and strings: the ASCII classes the grammar is written in, and
//! the passage between the bytes a scanner reads and the `String`s it
//! returns.

use vstd::prelude::*;
use vstd::string::*;
use vstd::utf8::*;

verus! {

broadcast use vstd::utf8::encode_utf8_valid_utf8, vstd::utf8::encode_utf8_decode_utf8,
    vstd::string::axiom_spec_iter, vstd::string::next_postcondition;

/// The byte tab.
pub const TAB: u8 = 0x09;

/// The byte line feed.
pub const NL: u8 = 0x0a;

/// The byte space.
pub const SPACE: u8 = 0x20;

/// The byte `!`.
pub const BANG: u8 = 0x21;

/// The byte `"`.
pub const QUOTE: u8 = 0x22;

/// The byte `#`.
pub const HASH: u8 = 0x23;

/// The byte `$`.
pub const DOLLAR: u8 = 0x24;

/// The byte `&`.
pub const AMP: u8 = 0x26;

/// The byte `'`.
pub const APOS: u8 = 0x27;

/// The byte `(`.
pub const LPAREN: u8 = 0x28;

/// The byte `)`.
pub const RPAREN: u8 = 0x29;

/// The byte `*`.
pub const STAR: u8 = 0x2a;

/// The byte `+`.
pub const PLUS: u8 = 0x2b;

/// The byte `,`.
pub const COMMA: u8 = 0x2c;

/// The byte `-`.
pub const DASH: u8 = 0x2d;

/// The byte `.`.
pub const DOT: u8 = 0x2e;

/// The byte `/`.
pub const SLASH: u8 = 0x2f;

/// The byte `:`.
pub const COLON: u8 = 0x3a;

/// The byte `;`.
pub const SEMI: u8 = 0x3b;

/// The byte `<`.
pub const LT: u8 = 0x3c;

/// The byte `=`.
pub const EQ: u8 = 0x3d;

/// The byte `>`.
pub const GT: u8 = 0x3e;

/// The byte `?`.
pub const QMARK: u8 = 0x3f;

/// The byte `@`.
pub const AT: u8 = 0x40;

/// The byte `[`.
pub const LBRACK: u8 = 0x5b;

/// The byte backslash.
pub const BSL: u8 = 0x5c;

/// The byte `]`.
pub const RBRACK: u8 = 0x5d;

/// The byte `^`.
pub const CARET: u8 = 0x5e;

/// The byte `_`.
pub const UNDERSCORE: u8 = 0x5f;

/// The byte backtick.
pub const TICK: u8 = 0x60;

/// The byte `{`.
pub const LBRACE: u8 = 0x7b;

/// The byte `|`.
pub const PIPE: u8 = 0x7c;

/// The byte `}`.
pub const RBRACE: u8 = 0x7d;

/// The byte `~`.
pub const TILDE: u8 = 0x7e;

/// The UTF-8 bytes of an owned string.
pub open spec fn owned(s: String) -> Seq<u8> {
    encode_utf8(s@)
}

/// `[A-Za-z]`.
pub open spec fn alpha(b: u8) -> bool {
    (0x41 <= b <= 0x5a) || (0x61 <= b <= 0x7a)
}

/// `[0-9]`.
pub open spec fn digit(b: u8) -> bool {
    0x30 <= b <= 0x39
}

/// `[A-Za-z0-9]`.
pub open spec fn alnum(b: u8) -> bool {
    alpha(b) || digit(b)
}

/// ASCII whitespace as Rust's `u8::is_ascii_whitespace` reads it: space,
/// tab, line feed, form feed, carriage return.
pub open spec fn space(b: u8) -> bool {
    b == 0x20 || b == 0x09 || b == 0x0a || b == 0x0c || b == 0x0d
}

/// Whether a byte is `[A-Za-z]`.
pub fn is_alpha(b: u8) -> (r: bool)
    ensures
        r == alpha(b),
{
    (0x41 <= b && b <= 0x5a) || (0x61 <= b && b <= 0x7a)
}

/// Whether a byte is `[0-9]`.
pub fn is_digit(b: u8) -> (r: bool)
    ensures
        r == digit(b),
{
    0x30 <= b && b <= 0x39
}

/// Whether a byte is `[A-Za-z0-9]`.
pub fn is_alnum(b: u8) -> (r: bool)
    ensures
        r == alnum(b),
{
    is_alpha(b) || is_digit(b)
}

/// Whether a byte is ASCII whitespace.
pub fn is_space(b: u8) -> (r: bool)
    ensures
        r == space(b),
{
    b == 0x20 || b == 0x09 || b == 0x0a || b == 0x0c || b == 0x0d
}

/// Where a valid UTF-8 sequence may be cut: its ends, or a byte that is
/// not a continuation byte.
pub open spec fn boundary(b: Seq<u8>, k: int) -> bool {
    k == 0 || k == b.len() || (0 <= k < b.len() && !is_continuation_byte(b[k]))
}

/// A slice of valid UTF-8 cut at two boundaries is valid UTF-8.
pub proof fn lemma_slice_valid(b: Seq<u8>, i: int, j: int)
    requires
        valid_utf8(b),
        0 <= i <= j <= b.len(),
        boundary(b, i),
        boundary(b, j),
    ensures
        valid_utf8(b.subrange(i, j)),
{
    is_char_boundary_start_end_of_seq(b);
    if j < b.len() {
        is_char_boundary_iff_not_is_continuation_byte(b, j);
    }
    valid_utf8_split(b, j);
    let p = b.subrange(0, j);
    is_char_boundary_start_end_of_seq(p);
    if 0 < i < j {
        is_char_boundary_iff_not_is_continuation_byte(p, i);
    }
    valid_utf8_split(p, i);
    assert(p.subrange(i, p.len() as int) =~= b.subrange(i, j));
}

/// ASCII bytes are valid UTF-8.
pub proof fn lemma_ascii_valid(b: Seq<u8>)
    requires
        forall|k: int| 0 <= k < b.len() ==> #[trigger] b[k] < 0x80,
    ensures
        valid_utf8(b),
    decreases b.len(),
{
    if b.len() > 0 {
        reveal_with_fuel(valid_utf8, 2);
        let rest = b.subrange(1, b.len() as int);
        assert(pop_first_scalar(b) =~= rest);
        lemma_ascii_valid(rest);
    }
}

/// `std::string::String::from_utf8`: the string the bytes encode, or an
/// error when they are not valid UTF-8.
#[verifier::external_type_specification]
#[verifier::external_body]
pub struct ExFromUtf8Error(std::string::FromUtf8Error);

/// Calls `String::from_utf8`, which is `Ok` exactly when the bytes are
/// valid UTF-8 and then holds the characters they encode.
#[verifier::external_body]
fn string_from_utf8(bytes: Vec<u8>) -> (r: Result<String, std::string::FromUtf8Error>)
    ensures
        r is Ok <==> valid_utf8(bytes@),
        r matches Ok(s) ==> s@ == decode_utf8(bytes@),
{
    String::from_utf8(bytes)
}

/// The string that valid UTF-8 bytes encode.
pub fn string_of(bytes: Vec<u8>) -> (r: String)
    requires
        valid_utf8(bytes@),
    ensures
        owned(r) == bytes@,
{
    let ghost b = bytes@;
    match string_from_utf8(bytes) {
        Ok(s) => {
            proof {
                decode_utf8_encode_utf8(b);
            }
            s
        },
        Err(_) => {
            proof {
                assert(false);
            }
            String::new()
        },
    }
}

/// The bytes of `s` from `i` to `j`, as a string; both ends must fall on
/// a character boundary.
pub fn substring(s: &str, i: usize, j: usize) -> (r: String)
    requires
        i <= j <= s.spec_bytes().len(),
        boundary(s.spec_bytes(), i as int),
        boundary(s.spec_bytes(), j as int),
    ensures
        owned(r) == s.spec_bytes().subrange(i as int, j as int),
{
    let b = s.as_bytes();
    let mut v: Vec<u8> = Vec::new();
    let mut k = i;
    while k < j
        invariant
            i <= k <= j <= b@.len(),
            v@ == b@.subrange(i as int, k as int),
        decreases j - k,
    {
        v.push(b[k]);
        k += 1;
        assert(v@ =~= b@.subrange(i as int, k as int));
    }
    proof {
        lemma_slice_valid(b@, i as int, j as int);
    }
    string_of(v)
}


/// A byte after an ASCII byte in valid UTF-8 starts a character.
pub proof fn lemma_after_ascii(b: Seq<u8>, k: int)
    requires
        valid_utf8(b),
        0 < k <= b.len(),
        b[k - 1] < 0x80,
    ensures
        boundary(b, k),
{
    if k < b.len() {
        is_char_boundary_iff_not_is_continuation_byte(b, k - 1);
        valid_utf8_split(b, k - 1);
        let t = b.subrange(k - 1, b.len() as int);
        reveal_with_fuel(valid_utf8, 2);
        assert(pop_first_scalar(t) =~= b.subrange(k, b.len() as int));
        let u = b.subrange(k, b.len() as int);
        assert(u[0] == b[k]);
    }
}

/// Every position of valid UTF-8 that holds an ASCII byte, or follows
/// one, is a boundary.
pub proof fn lemma_ascii_boundaries(b: Seq<u8>)
    requires
        valid_utf8(b),
    ensures
        forall|k: int| 0 <= k < b.len() && #[trigger] b[k] < 0x80 ==> boundary(b, k),
        forall|k: int| 0 < k <= b.len() && b[k - 1] < 0x80 ==> #[trigger] boundary(b, k),
{
    assert forall|k: int| 0 < k <= b.len() && b[k - 1] < 0x80 implies #[trigger] boundary(b, k) by {
        lemma_after_ascii(b, k);
    }
}

/// Appends the bytes of `b` from `i` to `j` to `out`.
pub fn push_range(out: &mut Vec<u8>, b: &[u8], i: usize, j: usize)
    requires
        i <= j <= b@.len(),
    ensures
        final(out)@ == old(out)@ + b@.subrange(i as int, j as int),
{
    let mut k = i;
    while k < j
        invariant
            i <= k <= j <= b@.len(),
            out@ == old(out)@ + b@.subrange(i as int, k as int),
        decreases j - k,
    {
        out.push(b[k]);
        k += 1;
        assert(out@ =~= old(out)@ + b@.subrange(i as int, k as int));
    }
}

/// Whether the bytes of `b` from `i` to `j` are the bytes of `lit`.
pub fn range_eq(b: &[u8], i: usize, j: usize, lit: &[u8]) -> (r: bool)
    requires
        i <= j <= b@.len(),
    ensures
        r == (b@.subrange(i as int, j as int) == lit@),
{
    if j - i != lit.len() {
        proof {
            assert(b@.subrange(i as int, j as int).len() != lit@.len());
        }
        return false;
    }
    let mut k: usize = 0;
    while k < lit.len()
        invariant
            j - i == lit@.len(),
            i <= j <= b@.len(),
            0 <= k <= lit@.len(),
            forall|m: int| 0 <= m < k ==> b@[i + m] == lit@[m],
        decreases lit@.len() - k,
    {
        if b[i + k] != lit[k] {
            proof {
                assert(b@.subrange(i as int, j as int)[k as int] != lit@[k as int]);
            }
            return false;
        }
        k += 1;
    }
    assert(b@.subrange(i as int, j as int) =~= lit@);
    true
}

/// Whether `b` starts with `lit` at `i`.
pub open spec fn has_at(b: Seq<u8>, i: int, lit: Seq<u8>) -> bool {
    0 <= i && i + lit.len() <= b.len() && b.subrange(i, i + lit.len()) == lit
}

/// Whether the bytes of `b` at `i` are the bytes of `lit`.
pub fn starts_at(b: &[u8], i: usize, lit: &[u8]) -> (r: bool)
    ensures
        r == has_at(b@, i as int, lit@),
{
    if i > b.len() || lit.len() > b.len() - i {
        return false;
    }
    range_eq(b, i, i + lit.len(), lit)
}

/// The length of the whitespace character (Unicode `White_Space`, as
/// `char::is_whitespace` reads it) whose UTF-8 encoding starts at `i`;
/// 0 when none does.
pub open spec fn ws_len(s: Seq<u8>, i: int) -> int {
    if !(0 <= i < s.len()) {
        0
    } else if space(s[i]) || s[i] == 0x0b {
        1
    } else if i + 1 < s.len() && s[i] == 0xc2 && (s[i + 1] == 0x85 || s[i + 1] == 0xa0) {
        2
    } else if i + 2 < s.len() && ws3(s[i], s[i + 1], s[i + 2]) {
        3
    } else {
        0
    }
}

/// The three-byte encodings of whitespace: U+1680, U+2000 to U+200A,
/// U+2028, U+2029, U+202F, U+205F, U+3000.
pub open spec fn ws3(a: u8, b: u8, c: u8) -> bool {
    (a == 0xe1 && b == 0x9a && c == 0x80) || (a == 0xe2 && b == 0x80 && (0x80 <= c <= 0x8a
        || c == 0xa8 || c == 0xa9 || c == 0xaf)) || (a == 0xe2 && b == 0x81 && c == 0x9f) || (
    a == 0xe3 && b == 0x80 && c == 0x80)
}

/// The length of the whitespace character whose encoding ends at `j`;
/// 0 when none does.
pub open spec fn ws_len_before(s: Seq<u8>, j: int) -> int {
    if !(0 < j <= s.len()) {
        0
    } else if space(s[j - 1]) || s[j - 1] == 0x0b {
        1
    } else if j >= 2 && s[j - 2] == 0xc2 && (s[j - 1] == 0x85 || s[j - 1] == 0xa0) {
        2
    } else if j >= 3 && ws3(s[j - 3], s[j - 2], s[j - 1]) {
        3
    } else {
        0
    }
}

/// The length of a whitespace character at `i`.
pub fn ws_at(s: &[u8], i: usize) -> (r: usize)
    ensures
        r == ws_len(s@, i as int),
{
    if i >= s.len() {
        return 0;
    }
    let a = s[i];
    if is_space(a) || a == 0x0b {
        return 1;
    }
    if i + 1 < s.len() && a == 0xc2 && (s[i + 1] == 0x85 || s[i + 1] == 0xa0) {
        return 2;
    }
    if s.len() - i > 2 {
        let b = s[i + 1];
        let c = s[i + 2];
        if (a == 0xe1 && b == 0x9a && c == 0x80) || (a == 0xe2 && b == 0x80 && ((0x80 <= c && c
            <= 0x8a) || c == 0xa8 || c == 0xa9 || c == 0xaf)) || (a == 0xe2 && b == 0x81 && c
            == 0x9f) || (a == 0xe3 && b == 0x80 && c == 0x80) {
            return 3;
        }
    }
    0
}

/// The length of a whitespace character ending at `j`.
pub fn ws_before(s: &[u8], j: usize) -> (r: usize)
    ensures
        r == ws_len_before(s@, j as int),
{
    if j == 0 || j > s.len() {
        return 0;
    }
    let a = s[j - 1];
    if is_space(a) || a == 0x0b {
        return 1;
    }
    if j >= 2 && s[j - 2] == 0xc2 && (a == 0x85 || a == 0xa0) {
        return 2;
    }
    if j >= 3 {
        let x = s[j - 3];
        let y = s[j - 2];
        if (x == 0xe1 && y == 0x9a && a == 0x80) || (x == 0xe2 && y == 0x80 && ((0x80 <= a && a
            <= 0x8a) || a == 0xa8 || a == 0xa9 || a == 0xaf)) || (x == 0xe2 && y == 0x81 && a
            == 0x9f) || (x == 0xe3 && y == 0x80 && a == 0x80) {
            return 3;
        }
    }
    0
}

/// Where `str::trim_start` leaves `s[i..j]`: past every leading whitespace
/// character.
pub open spec fn trim_start(s: Seq<u8>, i: int, j: int) -> int
    decreases j - i,
{
    if i < j && ws_len(s, i) > 0 && i + ws_len(s, i) <= j {
        trim_start(s, i + ws_len(s, i), j)
    } else {
        i
    }
}

/// Where `str::trim_end` leaves `s[i..j]`: before every trailing
/// whitespace character.
pub open spec fn trim_end(s: Seq<u8>, i: int, j: int) -> int
    decreases j - i,
{
    if i < j && ws_len_before(s, j) > 0 && i <= j - ws_len_before(s, j) {
        trim_end(s, i, j - ws_len_before(s, j))
    } else {
        j
    }
}

/// `trim_start` of `s[i..j]`.
pub fn skip_ws(s: &[u8], i: usize, j: usize) -> (r: usize)
    requires
        i <= j <= s@.len(),
    ensures
        r == trim_start(s@, i as int, j as int),
        i <= r <= j,
{
    let mut k = i;
    while k < j && ws_at(s, k) > 0 && ws_at(s, k) <= j - k
        invariant
            i <= k <= j <= s@.len(),
            trim_start(s@, k as int, j as int) == trim_start(s@, i as int, j as int),
        decreases j - k,
    {
        k = k + ws_at(s, k);
    }
    k
}

/// `trim_end` of `s[i..j]`.
pub fn back_ws(s: &[u8], i: usize, j: usize) -> (r: usize)
    requires
        i <= j <= s@.len(),
    ensures
        r == trim_end(s@, i as int, j as int),
        i <= r <= j,
{
    let mut k = j;
    while k > i && ws_before(s, k) > 0 && ws_before(s, k) <= k - i
        invariant
            i <= k <= j <= s@.len(),
            trim_end(s@, i as int, k as int) == trim_end(s@, i as int, j as int),
        decreases k - i,
    {
        k = k - ws_before(s, k);
    }
    k
}


/// The first position in `[i, j)` that holds `x`; `j` when none does.
pub open spec fn find_from(s: Seq<u8>, i: int, j: int, x: u8) -> int
    decreases j - i,
{
    if i >= j {
        j
    } else if s[i] == x {
        i
    } else {
        find_from(s, i + 1, j, x)
    }
}

/// What `find_from` finds: the first `x`, or `j`.
pub proof fn lemma_find_from(s: Seq<u8>, i: int, j: int, x: u8)
    requires
        i <= j,
    ensures
        i <= find_from(s, i, j, x) <= j,
        find_from(s, i, j, x) < j ==> s[find_from(s, i, j, x)] == x,
        forall|k: int| i <= k < find_from(s, i, j, x) ==> s[k] != x,
    decreases j - i,
{
    if i < j && s[i] != x {
        lemma_find_from(s, i + 1, j, x);
    }
}

/// The first position of `x` in `s[i..j]`, or `j`.
pub fn find_byte(s: &[u8], i: usize, j: usize, x: u8) -> (r: usize)
    requires
        i <= j <= s@.len(),
    ensures
        r == find_from(s@, i as int, j as int, x),
        i <= r <= j,
        r < j ==> s@[r as int] == x,
        forall|k: int| i <= k < r ==> s@[k] != x,
{
    proof {
        lemma_find_from(s@, i as int, j as int, x);
    }
    let mut k = i;
    while k < j && s[k] != x
        invariant
            i <= k <= j <= s@.len(),
            find_from(s@, k as int, j as int, x) == find_from(s@, i as int, j as int, x),
        decreases j - k,
    {
        k += 1;
    }
    k
}


/// `v` with a backslash written before every byte of `sp`.
pub open spec fn esc(v: Seq<u8>, sp: Seq<u8>) -> Seq<u8>
    decreases v.len(),
{
    if v.len() == 0 {
        seq![]
    } else if sp.contains(v.last()) {
        esc(v.drop_last(), sp) + seq![BSL, v.last()]
    } else {
        esc(v.drop_last(), sp) + seq![v.last()]
    }
}

/// Whether `x` is one of the bytes of `sp`.
pub fn contains(sp: &[u8], x: u8) -> (r: bool)
    ensures
        r == sp@.contains(x),
{
    let mut k: usize = 0;
    while k < sp.len()
        invariant
            0 <= k <= sp@.len(),
            forall|m: int| 0 <= m < k ==> sp@[m] != x,
        decreases sp@.len() - k,
    {
        if sp[k] == x {
            proof {
                assert(sp@[k as int] == x);
            }
            return true;
        }
        k += 1;
    }
    false
}

/// Appends `v` to `out` with a backslash before every byte of `sp`; with
/// ASCII `sp`, valid UTF-8 stays valid.
pub fn escape_into(out: &mut Vec<u8>, v: &[u8], sp: &[u8])
    requires
        forall|k: int| 0 <= k < sp@.len() ==> #[trigger] sp@[k] < 0x80,
    ensures
        final(out)@ == old(out)@ + esc(v@, sp@),
        valid_utf8(old(out)@) && valid_utf8(v@) ==> valid_utf8(final(out)@),
{
    let ghost start = out@;
    let mut run: usize = 0;
    let mut i: usize = 0;
    while i < v.len()
        invariant
            0 <= run <= i <= v@.len(),
            forall|k: int| 0 <= k < sp@.len() ==> #[trigger] sp@[k] < 0x80,
            esc(v@.subrange(0, i as int), sp@) == esc(v@.subrange(0, run as int), sp@)
                + v@.subrange(run as int, i as int),
            out@ == start + esc(v@.subrange(0, run as int), sp@),
            valid_utf8(start) && valid_utf8(v@) ==> valid_utf8(out@) && boundary(v@, run as int),
        decreases v@.len() - i,
    {
        let ghost pre = v@.subrange(0, i as int);
        assert(v@.subrange(0, i + 1).drop_last() =~= pre);
        if contains(sp, v[i]) {
            let ghost before = out@;
            push_range(out, v, run, i);
            out.push(BSL);
            out.push(v[i]);
            proof {
                assert(out@ =~= before + v@.subrange(run as int, i as int) + seq![BSL, v@[i as int]]);
                assert(esc(v@.subrange(0, i + 1), sp@) =~= esc(pre, sp@) + seq![BSL, v@[i as int]]);
                if valid_utf8(start) && valid_utf8(v@) {
                    assert(v@[i as int] < 0x80);
                    lemma_slice_valid(v@, run as int, i as int);
                    lemma_ascii_valid(seq![BSL, v@[i as int]]);
                    vstd::utf8::valid_utf8_concat(before, v@.subrange(run as int, i as int));
                    vstd::utf8::valid_utf8_concat(
                        before + v@.subrange(run as int, i as int),
                        seq![BSL, v@[i as int]],
                    );
                    lemma_after_ascii(v@, i + 1);
                }
                assert(v@.subrange(i + 1, i + 1) =~= seq![]);
                assert(esc(v@.subrange(0, i + 1), sp@) =~= esc(v@.subrange(0, i + 1), sp@) + v@.subrange(i + 1, i + 1));
            }
            run = i + 1;
        } else {
            proof {
                assert(esc(v@.subrange(0, i + 1), sp@) =~= esc(pre, sp@) + seq![v@[i as int]]);
                assert(v@.subrange(run as int, i + 1) =~= v@.subrange(run as int, i as int) + seq![v@[i as int]]);
            }
        }
        i += 1;
    }
    let ghost before = out@;
    push_range(out, v, run, v.len());
    proof {
        assert(v@.subrange(0, v@.len() as int) =~= v@);
        assert(out@ =~= start + esc(v@, sp@));
        if valid_utf8(start) && valid_utf8(v@) {
            lemma_slice_valid(v@, run as int, v@.len() as int);
            vstd::utf8::valid_utf8_concat(before, v@.subrange(run as int, v@.len() as int));
        }
    }
}

/// The parts of `list` with `sep` between each two.
pub open spec fn join(list: Seq<Seq<u8>>, sep: Seq<u8>) -> Seq<u8>
    decreases list.len(),
{
    if list.len() == 0 {
        seq![]
    } else if list.len() == 1 {
        list[0]
    } else {
        join(list.drop_last(), sep) + sep + list.last()
    }
}

/// The byte contents of a list of byte vectors.
pub open spec fn views(v: Seq<Vec<u8>>) -> Seq<Seq<u8>> {
    v.map_values(|p: Vec<u8>| p@)
}

/// Appends the parts of `parts`, `sep` between each two, to `out`.
pub fn join_into(out: &mut Vec<u8>, parts: &Vec<Vec<u8>>, sep: &[u8])
    ensures
        final(out)@ == old(out)@ + join(views(parts@), sep@),
        valid_utf8(old(out)@) && valid_utf8(sep@) && (forall|k: int|
            0 <= k < parts@.len() ==> valid_utf8(#[trigger] parts@[k]@)) ==> valid_utf8(final(out)@),
{
    let ghost start = out@;
    let mut i: usize = 0;
    while i < parts.len()
        invariant
            0 <= i <= parts@.len(),
            out@ == start + join(views(parts@).subrange(0, i as int), sep@),
            valid_utf8(start) && valid_utf8(sep@) && (forall|k: int|
                0 <= k < parts@.len() ==> valid_utf8(#[trigger] parts@[k]@)) ==> valid_utf8(out@),
        decreases parts@.len() - i,
    {
        let ghost before = out@;
        let ghost pre = views(parts@).subrange(0, i as int);
        let ghost next = views(parts@).subrange(0, i + 1);
        assert(next.drop_last() =~= pre);
        if i > 0 {
            push_range(out, sep, 0, sep.len());
            assert(sep@.subrange(0, sep@.len() as int) =~= sep@);
        }
        let p = &parts[i];
        push_range(out, p.as_slice(), 0, p.len());
        proof {
            assert(p@.subrange(0, p@.len() as int) =~= p@);
            assert(next.last() == p@);
            if i == 0 {
                assert(out@ =~= start + join(next, sep@));
            } else {
                assert(out@ =~= start + join(next, sep@));
            }
            if valid_utf8(start) && valid_utf8(sep@) && (forall|k: int|
                0 <= k < parts@.len() ==> valid_utf8(#[trigger] parts@[k]@)) {
                assert(valid_utf8(parts@[i as int]@));
                if i > 0 {
                    vstd::utf8::valid_utf8_concat(before, sep@);
                    vstd::utf8::valid_utf8_concat(before + sep@, p@);
                    assert(out@ =~= before + sep@ + p@);
                } else {
                    vstd::utf8::valid_utf8_concat(before, p@);
                    assert(out@ =~= before + p@);
                }
            }
        }
        i += 1;
    }
    proof {
        assert(views(parts@).subrange(0, parts@.len() as int) =~= views(parts@));
    }
}


/// The number of bytes of the character a leading byte starts.
pub open spec fn width(x: u8) -> int {
    if x < 0x80 {
        1
    } else if x < 0xe0 {
        2
    } else if x < 0xf0 {
        3
    } else {
        4
    }
}

/// After the character that starts at a boundary comes a boundary.
pub proof fn lemma_char_end(b: Seq<u8>, k: int)
    requires
        valid_utf8(b),
        0 <= k < b.len(),
        boundary(b, k),
    ensures
        k + width(b[k]) <= b.len(),
        boundary(b, k + width(b[k])),
{
    if k > 0 {
        is_char_boundary_iff_not_is_continuation_byte(b, k);
    } else {
        is_char_boundary_start_end_of_seq(b);
    }
    valid_utf8_split(b, k);
    let t = b.subrange(k, b.len() as int);
    reveal_with_fuel(valid_utf8, 2);
    assert(t[0] == b[k]);
    let l = length_of_first_scalar(t);
    assert(l == width(b[k]));
    assert(pop_first_scalar(t) =~= b.subrange(k + l, b.len() as int));
    if k + l < b.len() {
        let u = b.subrange(k + l, b.len() as int);
        assert(u[0] == b[k + l]);
    }
}

/// A whitespace character at a boundary is one whole character.
pub proof fn lemma_ws_char(b: Seq<u8>, k: int)
    requires
        valid_utf8(b),
        0 <= k < b.len(),
        boundary(b, k),
        ws_len(b, k) > 0,
    ensures
        ws_len(b, k) == width(b[k]),
        boundary(b, k + ws_len(b, k)),
        k + ws_len(b, k) <= b.len(),
{
    lemma_char_end(b, k);
}

/// Skipping leading whitespace from a boundary stops at a boundary.
pub proof fn lemma_trim_start(b: Seq<u8>, i: int, j: int)
    requires
        valid_utf8(b),
        0 <= i <= j <= b.len(),
        boundary(b, i),
    ensures
        i <= trim_start(b, i, j) <= j,
        boundary(b, trim_start(b, i, j)),
    decreases j - i,
{
    if i < j && ws_len(b, i) > 0 && i + ws_len(b, i) <= j {
        lemma_ws_char(b, i);
        lemma_trim_start(b, i + ws_len(b, i), j);
    }
}

/// Dropping trailing whitespace before a boundary stops at a boundary.
pub proof fn lemma_trim_end(b: Seq<u8>, i: int, j: int)
    requires
        0 <= i <= j <= b.len(),
        boundary(b, i),
        boundary(b, j),
    ensures
        i <= trim_end(b, i, j) <= j,
        boundary(b, trim_end(b, i, j)),
    decreases j - i,
{
    if i < j && ws_len_before(b, j) > 0 && i <= j - ws_len_before(b, j) {
        lemma_trim_end(b, i, j - ws_len_before(b, j));
    }
}

/// The last position in `[lo, k)` where a whitespace character that ends
/// by `hi` starts; -1 when there is none.
pub open spec fn last_ws(s: Seq<u8>, lo: int, k: int, hi: int) -> int
    decreases k - lo,
{
    if k <= lo {
        -1
    } else if ws_len(s, k - 1) > 0 && k - 1 + ws_len(s, k - 1) <= hi {
        k - 1
    } else {
        last_ws(s, lo, k - 1, hi)
    }
}

pub proof fn lemma_last_ws(s: Seq<u8>, lo: int, k: int, hi: int)
    ensures
        last_ws(s, lo, k, hi) == -1 || (lo <= last_ws(s, lo, k, hi) < k && ws_len(s, last_ws(s, lo, k, hi)) > 0),
    decreases k - lo,
{
    if k > lo && !(ws_len(s, k - 1) > 0 && k - 1 + ws_len(s, k - 1) <= hi) {
        lemma_last_ws(s, lo, k - 1, hi);
    }
}

/// The whitespace character `last_ws` finds ends by `hi`.
pub proof fn lemma_last_ws_ends(s: Seq<u8>, lo: int, k: int, hi: int)
    ensures
        last_ws(s, lo, k, hi) >= 0 ==> last_ws(s, lo, k, hi) + ws_len(s, last_ws(s, lo, k, hi)) <= hi,
    decreases k - lo,
{
    if k > lo && !(ws_len(s, k - 1) > 0 && k - 1 + ws_len(s, k - 1) <= hi) {
        lemma_last_ws_ends(s, lo, k - 1, hi);
    }
}

/// `str::rfind(char::is_whitespace)` on `s[lo..hi]`: where the last
/// whitespace character starts.
pub fn rfind_ws(s: &[u8], lo: usize, hi: usize) -> (r: Option<usize>)
    requires
        lo <= hi <= s@.len(),
    ensures
        match r {
            Some(w) => last_ws(s@, lo as int, hi as int, hi as int) == w && lo <= w < hi && ws_len(s@, w as int) > 0,
            None => last_ws(s@, lo as int, hi as int, hi as int) == -1,
        },
{
    proof {
        lemma_last_ws(s@, lo as int, hi as int, hi as int);
    }
    let mut k = hi;
    while k > lo
        invariant
            lo <= k <= hi <= s@.len(),
            last_ws(s@, lo as int, k as int, hi as int) == last_ws(s@, lo as int, hi as int, hi as int),
        decreases k - lo,
    {
        let l = ws_at(s, k - 1);
        if l > 0 && l <= hi - (k - 1) {
            return Some(k - 1);
        }
        k -= 1;
    }
    None
}

/// The first position in `[i, hi)` where a whitespace character starts;
/// `hi` when none does.
pub open spec fn next_ws(s: Seq<u8>, i: int, hi: int) -> int
    decreases hi - i,
{
    if i >= hi {
        hi
    } else if ws_len(s, i) > 0 {
        i
    } else {
        next_ws(s, i + 1, hi)
    }
}

pub proof fn lemma_next_ws(s: Seq<u8>, i: int, hi: int)
    requires
        i <= hi,
    ensures
        i <= next_ws(s, i, hi) <= hi,
        next_ws(s, i, hi) < hi ==> ws_len(s, next_ws(s, i, hi)) > 0,
        forall|k: int| i <= k < next_ws(s, i, hi) ==> ws_len(s, k) == 0,
    decreases hi - i,
{
    if i < hi && ws_len(s, i) == 0 {
        lemma_next_ws(s, i + 1, hi);
    }
}

/// The words of `s[lo..hi]`, as `str::split_whitespace` yields them.
pub open spec fn words(s: Seq<u8>, lo: int, hi: int) -> Seq<Seq<u8>>
    decreases hi - lo,
{
    let a = trim_start(s, lo, hi);
    let e = next_ws(s, a, hi);
    if lo < 0 || a >= hi || a < lo || e <= lo || e > hi {
        seq![]
    } else {
        seq![s.subrange(a, e)] + words(s, e, hi)
    }
}

pub proof fn lemma_trim_start_range(s: Seq<u8>, i: int, j: int)
    requires
        i <= j,
    ensures
        i <= trim_start(s, i, j) <= j,
        trim_start(s, i, j) < j ==> ws_len(s, trim_start(s, i, j)) == 0 || trim_start(s, i, j) + ws_len(s, trim_start(s, i, j)) > j,
    decreases j - i,
{
    if i < j && ws_len(s, i) > 0 && i + ws_len(s, i) <= j {
        lemma_trim_start_range(s, i + ws_len(s, i), j);
    }
}

/// The words of `s[lo..hi]` joined by single spaces, appended to `out`.
pub fn push_words(out: &mut Vec<u8>, s: &[u8], lo: usize, hi: usize)
    requires
        lo <= hi <= s@.len(),
        valid_utf8(s@),
        boundary(s@, lo as int),
        boundary(s@, hi as int),
    ensures
        final(out)@ == old(out)@ + join(words(s@, lo as int, hi as int), seq![SPACE]),
        valid_utf8(old(out)@) ==> valid_utf8(final(out)@),
{
    let ghost start = out@;
    let mut i = lo;
    let mut first = true;
    let ghost mut done: Seq<Seq<u8>> = seq![];
    while i < hi
        invariant
            lo <= i <= hi <= s@.len(),
            valid_utf8(s@),
            boundary(s@, i as int),
            boundary(s@, hi as int),
            first == (done.len() == 0),
            done + words(s@, i as int, hi as int) == words(s@, lo as int, hi as int),
            out@ == start + join(done, seq![SPACE]),
            valid_utf8(start) ==> valid_utf8(out@),
        decreases hi - i,
    {
        let a = skip_ws(s, i, hi);
        proof {
            lemma_trim_start(s@, i as int, hi as int);
            lemma_trim_start_range(s@, i as int, hi as int);
        }
        if a >= hi {
            proof {
                assert(words(s@, i as int, hi as int) =~= seq![]);
                assert(done + seq![] =~= done);
            }
            i = hi;
        } else {
            let mut e = a;
            while e < hi && ws_at(s, e) == 0
                invariant
                    a <= e <= hi <= s@.len(),
                    next_ws(s@, e as int, hi as int) == next_ws(s@, a as int, hi as int),
                decreases hi - e,
            {
                e += 1;
            }
            proof {
                lemma_next_ws(s@, a as int, hi as int);
                assert(e > a) by {
                    if e == a {
                        assert(ws_len(s@, a as int) > 0);
                        assert(a + ws_len(s@, a as int) > hi);
                        if ws_len(s@, a as int) > 0 {
                            lemma_ws_char(s@, a as int);
                        }
                    }
                }
                assert(words(s@, i as int, hi as int) =~= seq![s@.subrange(a as int, e as int)]
                    + words(s@, e as int, hi as int));
                if e < hi {
                    assert(ws_len(s@, e as int) > 0);
                    assert(!is_continuation_byte(s@[e as int]));
                }
            }
            let ghost before = out@;
            if !first {
                out.push(SPACE);
            }
            let ghost mid = out@;
            push_range(out, s, a, e);
            proof {
                let nd = done.push(s@.subrange(a as int, e as int));
                assert(nd.drop_last() =~= done);
                assert(done + words(s@, i as int, hi as int) =~= nd + words(s@, e as int, hi as int));
                if first {
                    assert(out@ =~= start + join(nd, seq![SPACE]));
                } else {
                    assert(out@ =~= start + join(nd, seq![SPACE]));
                }
                if valid_utf8(start) {
                    lemma_ascii_valid(seq![SPACE]);
                    if !first {
                        vstd::utf8::valid_utf8_concat(before, seq![SPACE]);
                        assert(mid =~= before + seq![SPACE]);
                    }
                    lemma_slice_valid(s@, a as int, e as int);
                    vstd::utf8::valid_utf8_concat(mid, s@.subrange(a as int, e as int));
                }
                done = nd;
            }
            first = false;
            i = e;
        }
    }
    proof {
        assert(words(s@, i as int, hi as int) =~= seq![]);
        assert(done + seq![] =~= done);
    }
}


/// `v` without its bytes equal to `x`.
pub open spec fn drop_byte(v: Seq<u8>, x: u8) -> Seq<u8>
    decreases v.len(),
{
    if v.len() == 0 {
        seq![]
    } else if v.last() == x {
        drop_byte(v.drop_last(), x)
    } else {
        drop_byte(v.drop_last(), x).push(v.last())
    }
}

/// Appends `s[a..b]` without its bytes equal to the ASCII byte `x`.
pub fn drop_byte_into(out: &mut Vec<u8>, s: &[u8], a: usize, b: usize, x: u8)
    requires
        a <= b <= s@.len(),
        x < 0x80,
    ensures
        final(out)@ == old(out)@ + drop_byte(s@.subrange(a as int, b as int), x),
        valid_utf8(old(out)@) && valid_utf8(s@) && boundary(s@, a as int) && boundary(s@, b as int)
            ==> valid_utf8(final(out)@),
{
    let ghost start = out@;
    let ghost good = valid_utf8(start) && valid_utf8(s@) && boundary(s@, a as int) && boundary(s@, b as int);
    let mut run = a;
    let mut i = a;
    while i < b
        invariant
            a <= run <= i <= b <= s@.len(),
            x < 0x80,
            good == (valid_utf8(start) && valid_utf8(s@) && boundary(s@, a as int) && boundary(s@, b as int)),
            drop_byte(s@.subrange(a as int, i as int), x) == drop_byte(s@.subrange(a as int, run as int), x)
                + s@.subrange(run as int, i as int),
            out@ == start + drop_byte(s@.subrange(a as int, run as int), x),
            good ==> valid_utf8(out@) && boundary(s@, run as int),
        decreases b - i,
    {
        let ghost pre = s@.subrange(a as int, i as int);
        assert(s@.subrange(a as int, i + 1).drop_last() =~= pre);
        if s[i] == x {
            let ghost before = out@;
            push_range(out, s, run, i);
            proof {
                assert(drop_byte(s@.subrange(a as int, i + 1), x) == drop_byte(pre, x));
                assert(out@ =~= before + s@.subrange(run as int, i as int));
                if good {
                    lemma_slice_valid(s@, run as int, i as int);
                    vstd::utf8::valid_utf8_concat(before, s@.subrange(run as int, i as int));
                    lemma_after_ascii(s@, i + 1);
                }
                assert(s@.subrange(i + 1, i + 1) =~= seq![]);
                assert(drop_byte(s@.subrange(a as int, i + 1), x) =~= drop_byte(s@.subrange(a as int, i + 1), x) + s@.subrange(i + 1, i + 1));
            }
            run = i + 1;
        } else {
            proof {
                assert(drop_byte(s@.subrange(a as int, i + 1), x) == drop_byte(pre, x).push(s@[i as int]));
                assert(s@.subrange(run as int, i + 1) =~= s@.subrange(run as int, i as int).push(s@[i as int]));
                assert(drop_byte(s@.subrange(a as int, i + 1), x) =~= drop_byte(s@.subrange(a as int, run as int), x)
                    + s@.subrange(run as int, i + 1));
            }
        }
        i += 1;
    }
    let ghost before = out@;
    push_range(out, s, run, b);
    proof {
        assert(out@ =~= start + drop_byte(s@.subrange(a as int, b as int), x));
        if good {
            lemma_slice_valid(s@, run as int, b as int);
            vstd::utf8::valid_utf8_concat(before, s@.subrange(run as int, b as int));
        }
    }
}

// ---------------------------------------------------------------------------
// Characters around a position
// ---------------------------------------------------------------------------

/// The character whose encoding ends at byte `i` of valid UTF-8 `s`;
/// `None` at the start.
pub open spec fn char_before(s: Seq<u8>, i: int) -> Option<char> {
    if i <= 0 {
        None
    } else {
        Some(decode_utf8(s.subrange(0, i)).last())
    }
}

/// The character whose encoding starts at byte `i` of valid UTF-8 `s`;
/// `None` at the end.
pub open spec fn char_at(s: Seq<u8>, i: int) -> Option<char> {
    if i >= s.len() {
        None
    } else {
        Some(decode_utf8(s.subrange(i, s.len() as int))[0])
    }
}

/// A boundary of a string's bytes is a character boundary.
pub proof fn lemma_str_boundary(s: &str, i: int)
    requires
        0 <= i <= s.spec_bytes().len(),
        boundary(s.spec_bytes(), i),
    ensures
        is_char_boundary(s.spec_bytes(), i),
{
    let b = s.spec_bytes();
    is_char_boundary_start_end_of_seq(b);
    if 0 < i < b.len() {
        is_char_boundary_iff_not_is_continuation_byte(b, i);
    }
}

/// The character that starts at byte `i` of `s`.
pub fn char_at_byte(s: &str, i: usize) -> (r: Option<char>)
    requires
        i <= s.spec_bytes().len(),
        boundary(s.spec_bytes(), i as int),
    ensures
        r == char_at(s.spec_bytes(), i as int),
{
    proof {
        lemma_str_boundary(s, i as int);
    }
    let (_, tail) = s.split_at(i);
    proof {
        let t = tail.spec_bytes();
        assert(decode_utf8(t) == tail@);
        if i < s.spec_bytes().len() {
            assert(t.len() > 0);
            if tail@.len() == 0 {
                assert(encode_utf8(tail@) =~= Seq::<u8>::empty());
            }
        } else {
            assert(t.len() == 0);
        }
    }
    let mut it = tail.chars();
    it.next()
}

/// The character whose encoding ends at byte `i` of `s`.
pub fn char_before_byte(s: &str, i: usize) -> (r: Option<char>)
    requires
        i <= s.spec_bytes().len(),
        boundary(s.spec_bytes(), i as int),
    ensures
        r == char_before(s.spec_bytes(), i as int),
{
    proof {
        lemma_str_boundary(s, i as int);
    }
    let (head, _) = s.split_at(i);
    let ghost h = head@;
    proof {
        assert(decode_utf8(head.spec_bytes()) == h);
        if i > 0 {
            assert(head.spec_bytes().len() > 0);
            if h.len() == 0 {
                assert(encode_utf8(h) =~= Seq::<u8>::empty());
            }
        } else {
            assert(head.spec_bytes().len() == 0);
            if h.len() > 0 {
                assert(encode_utf8(h).len() > 0);
            }
        }
    }
    let mut it = head.chars();
    let mut last: Option<char> = None;
    let ghost mut k: int = 0;
    loop
        invariant
            0 <= k <= h.len(),
            vstd::std_specs::iter::IteratorSpec::remaining(&it) == h.skip(k),
            last == (if k == 0 { None::<char> } else { Some(h[k - 1]) }),
        ensures
            last == (if h.len() == 0 { None::<char> } else { Some(h.last()) }),
        decreases h.len() - k,
    {
        match it.next() {
            Some(c) => {
                proof {
                    assert(h.skip(k).len() > 0);
                    assert(h.skip(k)[0] == h[k]);
                    assert(h.skip(k).drop_first() =~= h.skip(k + 1));
                    k = k + 1;
                }
                last = Some(c);
            },
            None => {
                proof {
                    assert(h.skip(k).len() == 0);
                }
                break;
            },
        }
    }
    last
}

/// `char::is_alphanumeric`: whether a character is alphabetic or numeric
/// in the Unicode sense.
pub uninterp spec fn alphanumeric(c: char) -> bool;

/// Calls `char::is_alphanumeric`, whose answer is a function of the
/// character alone (the Unicode `Alphabetic` and `Numeric` tables); the
/// tables themselves are not restated here.
#[verifier::external_body]
pub(crate) fn char_is_alphanumeric(c: char) -> (r: bool)
    ensures
        r == alphanumeric(c),
{
    c.is_alphanumeric()
}

/// Decoding valid UTF-8 runs over a concatenation piece by piece.
pub proof fn lemma_decode_concat(a: Seq<u8>, b: Seq<u8>)
    requires
        valid_utf8(a),
        valid_utf8(b),
    ensures
        valid_utf8(a + b),
        decode_utf8(a + b) == decode_utf8(a) + decode_utf8(b),
        b.len() > 0 ==> decode_utf8(b).len() > 0,
{
    valid_utf8_concat(a, b);
    let c = a + b;
    if b.len() == 0 {
        assert(c =~= a);
        assert(decode_utf8(a) + decode_utf8(b) =~= decode_utf8(a));
    } else {
        assert(decode_utf8(b).len() > 0);
        assert(!is_continuation_byte(b[0]));
        is_char_boundary_start_end_of_seq(c);
        if a.len() > 0 {
            assert(c[a.len() as int] == b[0]);
            is_char_boundary_iff_not_is_continuation_byte(c, a.len() as int);
        }
        decode_utf8_split(c, a.len() as int);
        assert(c.subrange(0, a.len() as int) =~= a);
        assert(c.subrange(a.len() as int, c.len() as int) =~= b);
    }
}

/// The end of a valid UTF-8 prefix of valid UTF-8 is a character boundary.
pub proof fn lemma_prefix_boundary(p: Seq<u8>, q: Seq<u8>)
    requires
        valid_utf8(p),
        valid_utf8(p + q),
    ensures
        is_char_boundary(p + q, p.len() as int),
        boundary(p + q, p.len() as int),
    decreases p.len(),
{
    let c = p + q;
    if p.len() > 0 {
        let l = length_of_first_scalar(p);
        assert(c[0] == p[0]);
        assert(length_of_first_scalar(c) == l);
        assert(pop_first_scalar(c) =~= pop_first_scalar(p) + q);
        lemma_prefix_boundary(pop_first_scalar(p), q);
    }
    if p.len() < c.len() {
        is_char_boundary_iff_not_is_continuation_byte(c, p.len() as int);
    }
}

} // verus!
