//! Inline sugar found inside text runs: emoji shortcodes `:smile:`
//! expanded from the `gemoji` table, the Material icon shortcodes
//! `:material-cog:`, and the reference-style link `[text][id]`.

use std::ops::Range;
use vstd::prelude::*;
use vstd::string::*;
use vstd::utf8::*;
use crate::text::{
    alnum, alpha, alphanumeric, boundary, char_at, char_at_byte, char_before, char_before_byte,
    char_is_alphanumeric, digit, find_byte, find_from, has_at, is_alnum, is_alpha, is_digit,
    lemma_after_ascii, lemma_ascii_valid, lemma_find_from, lemma_str_boundary, owned, push_range,
    starts_at, string_of, BANG, CARET, COLON, DASH, DOT, LBRACK, NL, PLUS, RBRACK, UNDERSCORE,
};
use crate::head::{ident_seq, is_ident};

verus! {

broadcast use vstd::utf8::encode_utf8_valid_utf8, vstd::utf8::encode_utf8_decode_utf8;

// ---------------------------------------------------------------------------
// Shortcodes
// ---------------------------------------------------------------------------

/// The emoji that the GitHub shortcode `name` stands for in the `gemoji`
/// table, if the table knows the name.
pub uninterp spec fn gemoji(name: Seq<char>) -> Option<Seq<char>>;

/// Looks `name` up with `emojis::get_by_shortcode`, the `gemoji`
/// shortcode table: the emoji it names, or nothing. What the table holds
/// is not restated here; the answer depends on the name alone.
#[verifier::external_body]
fn emoji(name: &str) -> (r: Option<&'static str>)
    ensures
        match r {
            Some(e) => gemoji(name@) == Some(e@),
            None => gemoji(name@) is None,
        },
{
    match emojis::get_by_shortcode(name) {
        Some(e) => Some(e.as_str()),
        None => None,
    }
}

/// A byte of a shortcode name: `[a-z0-9_+-]`.
pub open spec fn name_byte(b: u8) -> bool {
    (0x61 <= b <= 0x7a) || digit(b) || b == UNDERSCORE || b == DASH || b == PLUS
}

/// The first position from `i` on that does not hold a name byte.
pub open spec fn name_end(s: Seq<u8>, i: int) -> int
    decreases s.len() - i,
{
    if 0 <= i < s.len() && name_byte(s[i]) {
        name_end(s, i + 1)
    } else {
        i
    }
}

proof fn lemma_name_end(s: Seq<u8>, i: int)
    requires
        0 <= i <= s.len(),
    ensures
        i <= name_end(s, i) <= s.len(),
        forall|k: int| i <= k < name_end(s, i) ==> name_byte(#[trigger] s[k]),
    decreases s.len() - i,
{
    if i < s.len() && name_byte(s[i]) {
        lemma_name_end(s, i + 1);
    }
}

/// Whether a shortcode name names an icon of one of the four Material
/// sets: `material-`, `fontawesome-`, `octicons-` or `simple-` first.
pub open spec fn icon_name(n: Seq<u8>) -> bool {
    ||| has_at(n, 0, "material-".spec_bytes())
    ||| has_at(n, 0, "fontawesome-".spec_bytes())
    ||| has_at(n, 0, "octicons-".spec_bytes())
    ||| has_at(n, 0, "simple-".spec_bytes())
}

/// Whether a shortcode name is an icon name.
pub(crate) fn is_icon_name(name: &[u8]) -> (r: bool)
    ensures
        r == icon_name(name@),
{
    starts_at(name, 0, "material-".as_bytes()) || starts_at(name, 0, "fontawesome-".as_bytes())
        || starts_at(name, 0, "octicons-".as_bytes()) || starts_at(name, 0, "simple-".as_bytes())
}

/// `name_end` from `i` is `j` when every byte of `[i, j)` is a name byte
/// and the byte at `j` is not.
proof fn lemma_name_end_at(s: Seq<u8>, i: int, j: int)
    requires
        0 <= i <= j < s.len(),
        forall|k: int| i <= k < j ==> name_byte(#[trigger] s[k]),
        !name_byte(s[j]),
    ensures
        name_end(s, i) == j,
    decreases j - i,
{
    if i < j {
        lemma_name_end_at(s, i + 1, j);
    }
}

/// The bytes of the four icon-set prefixes are name bytes.
proof fn lemma_icon_prefixes_are_names()
    ensures
        forall|k: int|
            0 <= k < "material-".spec_bytes().len() ==> name_byte(
                #[trigger] "material-".spec_bytes()[k],
            ),
        forall|k: int|
            0 <= k < "fontawesome-".spec_bytes().len() ==> name_byte(
                #[trigger] "fontawesome-".spec_bytes()[k],
            ),
        forall|k: int|
            0 <= k < "octicons-".spec_bytes().len() ==> name_byte(
                #[trigger] "octicons-".spec_bytes()[k],
            ),
        forall|k: int|
            0 <= k < "simple-".spec_bytes().len() ==> name_byte(#[trigger] "simple-".spec_bytes()[k]),
        "material-".spec_bytes().len() > 0,
        "fontawesome-".spec_bytes().len() > 0,
        "octicons-".spec_bytes().len() > 0,
        "simple-".spec_bytes().len() > 0,
{
    reveal_strlit("material-");
    vstd::string::is_ascii_spec_bytes("material-");
    assert(vstd::string::is_ascii("material-"));
    reveal_strlit("fontawesome-");
    vstd::string::is_ascii_spec_bytes("fontawesome-");
    assert(vstd::string::is_ascii("fontawesome-"));
    reveal_strlit("octicons-");
    vstd::string::is_ascii_spec_bytes("octicons-");
    assert(vstd::string::is_ascii("octicons-"));
    reveal_strlit("simple-");
    vstd::string::is_ascii_spec_bytes("simple-");
    assert(vstd::string::is_ascii("simple-"));
}

/// `:<set>-<name>:` is an icon shortcode for each of the four icon sets
/// (`material-`, `fontawesome-`, `octicons-`, `simple-`) and any name of
/// `[a-z0-9_+-]`, whatever the emoji table holds: the whole spelling is
/// taken, as an icon.
pub proof fn lemma_icon_shortcodes(set: Seq<u8>, name: Seq<u8>)
    requires
        set == "material-".spec_bytes() || set == "fontawesome-".spec_bytes() || set
            == "octicons-".spec_bytes() || set == "simple-".spec_bytes(),
        forall|k: int| 0 <= k < name.len() ==> name_byte(#[trigger] name[k]),
    ensures
        shortcode_spec(seq![COLON] + set + name + seq![COLON], 0) == Some(
            ((set.len() + name.len() + 2) as int, None::<Seq<char>>),
        ),
{
    lemma_icon_prefixes_are_names();
    let b = seq![COLON] + set + name + seq![COLON];
    let p = b.len() - 1;
    assert forall|k: int| 1 <= k < p implies name_byte(#[trigger] b[k]) by {
        if k < 1 + set.len() {
            assert(b[k] == set[k - 1]);
        } else {
            assert(b[k] == name[k - 1 - set.len()]);
        }
    }
    lemma_name_end_at(b, 1, p);
    assert(b.subrange(1, p) =~= set + name);
    assert((set + name).subrange(0, set.len() as int) =~= set);
    assert(icon_name(b.subrange(1, p)));
    assert(set.len() > 0);
}

/// A shortcode found in a text run: an emoji, with the text it expands
/// to, or an icon.
#[derive(Clone, Copy, Debug)]
pub enum Shortcode {
    Emoji(&'static str),
    Icon,
}

/// What a shortcode is, as a value: the emoji's characters, or `None`
/// for an icon.
pub open spec fn shortcode_model(k: Shortcode) -> Option<Seq<char>> {
    match k {
        Shortcode::Emoji(e) => Some(e@),
        Shortcode::Icon => None,
    }
}

/// The shortcode at byte `at` of `b`: its byte length and what it is.
/// A `:` there, not after an alphanumeric character; a non-empty name of
/// `[a-z0-9_+-]`; a closing `:` not followed by an alphanumeric
/// character; and a name that is an icon or that the emoji table knows.
pub open spec fn shortcode_spec(b: Seq<u8>, at: int) -> Option<(int, Option<Seq<char>>)> {
    let p = name_end(b, at + 1);
    let n = p - (at + 1);
    if !(0 <= at < b.len() && b[at] == COLON) {
        None
    } else if char_before(b, at) matches Some(c) && alphanumeric(c) {
        None
    } else if n == 0 || !(p < b.len() && b[p] == COLON) {
        None
    } else if char_at(b, p + 1) matches Some(c) && alphanumeric(c) {
        None
    } else if icon_name(b.subrange(at + 1, p)) {
        Some((n + 2, None))
    } else {
        match gemoji(decode_utf8(b.subrange(at + 1, p))) {
            Some(e) => Some((n + 2, Some(e))),
            None => None,
        }
    }
}

/// A shortcode at `at` in `text` (a `:` there): its byte length and what
/// it is. A colon-delimited word touching a word character on either side
/// (`12:30:45`, `a:b:c`) is not one; a name the emoji table does not know
/// is not one either, so it stays literal with no diagnostic.
pub fn shortcode(text: &str, at: usize) -> (r: Option<(usize, Shortcode)>)
    requires
        at <= text.spec_bytes().len(),
        boundary(text.spec_bytes(), at as int),
    ensures
        match r {
            Some((len, k)) => shortcode_spec(text.spec_bytes(), at as int) == Some(
                (len as int, shortcode_model(k)),
            ),
            None => shortcode_spec(text.spec_bytes(), at as int) is None,
        },
{
    let b = text.as_bytes();
    if !(at < b.len() && b[at] == COLON) {
        return None;
    }
    match char_before_byte(text, at) {
        Some(c) => {
            if char_is_alphanumeric(c) {
                return None;
            }
        },
        None => {},
    }
    proof {
        lemma_name_end(b@, at + 1);
    }
    let mut p = at + 1;
    while p < b.len() && (b[p] >= 0x61 && b[p] <= 0x7a || is_digit(b[p]) || b[p] == UNDERSCORE
        || b[p] == DASH || b[p] == PLUS)
        invariant
            at + 1 <= p <= b@.len(),
            name_end(b@, p as int) == name_end(b@, at + 1),
        decreases b@.len() - p,
    {
        p += 1;
    }
    let n = p - (at + 1);
    if n == 0 || !(p < b.len() && b[p] == COLON) {
        return None;
    }
    proof {
        lemma_after_ascii(b@, p + 1);
    }
    match char_at_byte(text, p + 1) {
        Some(c) => {
            if char_is_alphanumeric(c) {
                return None;
            }
        },
        None => {},
    }
    let mut name_bytes: Vec<u8> = Vec::new();
    push_range(&mut name_bytes, b, at + 1, p);
    if is_icon_name(name_bytes.as_slice()) {
        return Some((n + 2, Shortcode::Icon));
    }
    proof {
        assert forall|k: int| 0 <= k < name_bytes@.len() implies #[trigger] name_bytes@[k] < 0x80 by {
            assert(name_bytes@[k] == b@[at + 1 + k]);
            assert(name_byte(b@[at + 1 + k]));
        }
        lemma_ascii_valid(name_bytes@);
    }
    let ghost nb = name_bytes@;
    let name = string_of(name_bytes);
    proof {
        assert(decode_utf8(encode_utf8(name@)) == name@);
        assert(decode_utf8(nb) == name@);
    }
    match emoji(name.as_str()) {
        Some(e) => Some((n + 2, Shortcode::Emoji(e))),
        None => None,
    }
}

// ---------------------------------------------------------------------------
// Reference-style links
// ---------------------------------------------------------------------------

/// A byte of a key segment after its first: `[A-Za-z0-9_.-]`.
pub open spec fn key_tail_byte(b: u8) -> bool {
    alnum(b) || b == UNDERSCORE || b == DOT || b == DASH
}

/// A key segment: an ASCII letter or digit, then `[A-Za-z0-9_.-]*`.
pub open spec fn id_key(t: Seq<u8>) -> bool {
    &&& t.len() > 0
    &&& alnum(t[0])
    &&& forall|k: int| 1 <= k < t.len() ==> key_tail_byte(#[trigger] t[k])
}

/// Whether every `:`-separated segment of `s` from `i` on is a key.
pub open spec fn keys_from(s: Seq<u8>, i: int) -> bool
    decreases s.len() - i,
{
    let c = find_from(s, i, s.len() as int, COLON);
    if i < 0 || i > s.len() {
        false
    } else {
        proof {
            lemma_find_from(s, i, s.len() as int, COLON);
        }
        id_key(s.subrange(i, c)) && (c < s.len() ==> keys_from(s, c + 1))
    }
}

/// The identifier production: `prefix(:key)+` or a bare `key`.
pub open spec fn is_id_spec(s: Seq<u8>) -> bool {
    let c = find_from(s, 0, s.len() as int, COLON);
    if c == s.len() {
        id_key(s)
    } else {
        ident_seq(s.subrange(0, c)) && keys_from(s, c + 1)
    }
}

/// Whether `s[a..b]` is a key segment.
fn is_id_key(s: &[u8], a: usize, b: usize) -> (r: bool)
    requires
        a <= b <= s@.len(),
    ensures
        r == id_key(s@.subrange(a as int, b as int)),
{
    let ghost t = s@.subrange(a as int, b as int);
    if b == a || !is_alnum(s[a]) {
        return false;
    }
    let mut k = a + 1;
    while k < b
        invariant
            a < k <= b <= s@.len(),
            t == s@.subrange(a as int, b as int),
            forall|m: int| a + 1 <= m < k ==> key_tail_byte(#[trigger] s@[m]),
        decreases b - k,
    {
        let c = s[k];
        if !(is_alnum(c) || c == UNDERSCORE || c == DOT || c == DASH) {
            proof {
                assert(t[k - a] == s@[k as int]);
            }
            return false;
        }
        k += 1;
    }
    proof {
        assert forall|m: int| 1 <= m < t.len() implies key_tail_byte(#[trigger] t[m]) by {
            assert(t[m] == s@[a + m]);
        }
    }
    true
}

/// Whether `s` is the identifier production (`prefix(:key)+` or a bare
/// `key`).
fn is_id(s: &[u8]) -> (r: bool)
    ensures
        r == is_id_spec(s@),
{
    let n = s.len();
    let c = find_byte(s, 0, n, COLON);
    if c == n {
        proof {
            assert(s@.subrange(0, n as int) =~= s@);
        }
        return is_id_key(s, 0, n);
    }
    if !is_ident(s, 0, c) {
        return false;
    }
    let mut i = c + 1;
    loop
        invariant
            c + 1 <= i <= n,
            n == s@.len(),
            keys_from(s@, i as int) == keys_from(s@, c + 1),
            is_id_spec(s@) == keys_from(s@, c + 1),
        decreases n - i,
    {
        let d = find_byte(s, i, n, COLON);
        if !is_id_key(s, i, d) {
            return false;
        }
        if d == n {
            return true;
        }
        i = d + 1;
    }
}

/// The closing half `][id]` at the start of `b`: the id and the byte
/// length of the half.
pub open spec fn reference_tail_spec(b: Seq<u8>) -> Option<(Seq<u8>, int)> {
    let e = find_from(b, 2, b.len() as int, RBRACK);
    if b.len() >= 2 && b[0] == RBRACK && b[1] == LBRACK && e < b.len() && is_id_spec(
        b.subrange(2, e),
    ) {
        Some((b.subrange(2, e), e + 1))
    } else {
        None
    }
}

/// The closing half of the spelling, `][id]` at the start of `s`: the id
/// it names and the byte length of the half. The id is an identifier, so
/// `[a][b c]` is not a reference and neither is the wiki link `[[page]]`;
/// the collapsed form `[text][]` names no id and is not one either.
pub fn reference_tail(s: &str) -> (r: Option<(String, usize)>)
    ensures
        match r {
            Some((id, n)) => reference_tail_spec(s.spec_bytes()) == Some((owned(id), n as int)),
            None => reference_tail_spec(s.spec_bytes()) is None,
        },
{
    let b = s.as_bytes();
    if b.len() < 2 || b[0] != RBRACK || b[1] != LBRACK {
        return None;
    }
    let e = find_byte(b, 2, b.len(), RBRACK);
    if e >= b.len() {
        return None;
    }
    let mut id: Vec<u8> = Vec::new();
    push_range(&mut id, b, 2, e);
    if !is_id(id.as_slice()) {
        return None;
    }
    proof {
        assert forall|k: int| 0 <= k < id@.len() implies #[trigger] id@[k] < 0x80 by {
            let t = id@;
            if find_from(t, 0, t.len() as int, COLON) == t.len() {
                if k > 0 {
                    assert(key_tail_byte(t[k]));
                }
            } else {
                lemma_keys_ascii(t, find_from(t, 0, t.len() as int, COLON) + 1);
                lemma_find_from(t, 0, t.len() as int, COLON);
                let c = find_from(t, 0, t.len() as int, COLON);
                if k < c {
                    let h = t.subrange(0, c);
                    assert(h[k] == t[k]);
                    if k > 0 {
                        assert(crate::scan::ident_byte(h[k]));
                    }
                }
            }
        }
        lemma_ascii_valid(id@);
    }
    Some((string_of(id), e + 1))
}

/// Every byte of a run of key segments is ASCII.
proof fn lemma_keys_ascii(s: Seq<u8>, i: int)
    requires
        keys_from(s, i),
    ensures
        forall|k: int| i <= k < s.len() ==> #[trigger] s[k] < 0x80,
    decreases s.len() - i,
{
    lemma_find_from(s, i, s.len() as int, COLON);
    let c = find_from(s, i, s.len() as int, COLON);
    let t = s.subrange(i, c);
    if c < s.len() {
        lemma_keys_ascii(s, c + 1);
    }
    assert forall|k: int| i <= k < s.len() implies #[trigger] s[k] < 0x80 by {
        if k < c {
            assert(t[k - i] == s[k]);
            if k > i {
                assert(key_tail_byte(t[k - i]));
            }
        }
    }
}

/// The `]` that closes a bracket opened before `i`, brackets nesting
/// with `depth` already open inside; `None` at a line feed or at the end.
pub open spec fn close_at(b: Seq<u8>, i: int, depth: nat) -> Option<int>
    decreases b.len() - i,
{
    if i < 0 || i >= b.len() || b[i] == NL {
        None
    } else if b[i] == LBRACK {
        close_at(b, i + 1, depth + 1)
    } else if b[i] == RBRACK {
        if depth == 0 {
            Some(i)
        } else {
            close_at(b, i + 1, (depth - 1) as nat)
        }
    } else {
        close_at(b, i + 1, depth)
    }
}

proof fn lemma_close_at(b: Seq<u8>, i: int, depth: nat)
    requires
        0 <= i,
    ensures
        close_at(b, i, depth) matches Some(e) ==> i <= e < b.len() && b[e] == RBRACK && forall|k: int|
            i <= k < e ==> b[k] != NL,
    decreases b.len() - i,
{
    if i < 0 || i >= b.len() || b[i] == NL {
    } else if b[i] == LBRACK {
        lemma_close_at(b, i + 1, depth + 1);
    } else if b[i] == RBRACK {
        if depth > 0 {
            lemma_close_at(b, i + 1, (depth - 1) as nat);
        }
    } else {
        lemma_close_at(b, i + 1, depth);
    }
}

/// A reference-style link at `at`: its byte length, where its text starts
/// and ends, and the id it names.
pub open spec fn reference_link_spec(b: Seq<u8>, at: int) -> Option<(int, int, int, Seq<u8>)> {
    if !(0 <= at < b.len() && b[at] == LBRACK) || (at > 0 && b[at - 1] == BANG) {
        None
    } else {
        match close_at(b, at + 1, 0) {
            None => None,
            Some(end) => if end == at + 1 || b[at + 1] == CARET {
                None
            } else {
                match reference_tail_spec(b.subrange(end, b.len() as int)) {
                    None => None,
                    Some((id, tail)) => Some((end + tail - at, at + 1, end, id)),
                }
            },
        }
    }
}

/// What a found reference-style link is: a `[` at `at`, no `!` before
/// it, a text that starts right after it, is not empty, does not start
/// with `^` and holds no line feed, and a spelling that is exactly
/// `[text][id]`.
pub proof fn lemma_reference_link_shape(b: Seq<u8>, at: int)
    ensures
        reference_link_spec(b, at) matches Some((len, ts, te, id)) ==> {
            &&& b[at] == LBRACK
            &&& (at == 0 || b[at - 1] != BANG)
            &&& ts == at + 1
            &&& ts < te
            &&& b[ts] != CARET
            &&& forall|k: int| ts <= k < te ==> b[k] != NL
            &&& at + len <= b.len()
            &&& b.subrange(at, at + len) == seq![LBRACK] + b.subrange(ts, te) + seq![RBRACK, LBRACK]
                + id + seq![RBRACK]
        },
{
    if 0 <= at < b.len() && b[at] == LBRACK && !(at > 0 && b[at - 1] == BANG) {
        lemma_close_at(b, at + 1, 0);
        if let Some(end) = close_at(b, at + 1, 0) {
            let sub = b.subrange(end, b.len() as int);
            if let Some((id, tail)) = reference_tail_spec(sub) {
                lemma_find_from(sub, 2, sub.len() as int, RBRACK);
                if !(end == at + 1 || b[at + 1] == CARET) {
                    let e = find_from(sub, 2, sub.len() as int, RBRACK);
                    assert(b.subrange(at, end + tail) =~= seq![LBRACK] + b.subrange(at + 1, end)
                        + seq![RBRACK, LBRACK] + id + seq![RBRACK]) by {
                        assert(sub[0] == b[end]);
                        assert(sub[1] == b[end + 1]);
                        assert(sub[e] == b[end + e]);
                        assert forall|m: int| 0 <= m < id.len() implies id[m] == b[end + 2 + m] by {
                            assert(sub[2 + m] == b[end + 2 + m]);
                        }
                    }
                }
            }
        }
    }
}

/// A reference-style link `[text][id]`: where its text sits in the run,
/// the id it names, and the byte length of the whole spelling.
#[derive(Debug, PartialEq)]
pub struct Reference {
    pub len: usize,
    pub text: Range<usize>,
    pub id: String,
}

/// A reference-style link at `at` in `text` (a `[` there), the text of
/// which is one run. The text is not empty and does not start the
/// footnote spelling `[^…]`, brackets inside it nest, and it does not run
/// over a line; a `!` before the bracket is an image reference, which is
/// not a reference to a label.
pub fn reference_link(text: &str, at: usize) -> (r: Option<Reference>)
    ensures
        match r {
            Some(x) => reference_link_spec(text.spec_bytes(), at as int) == Some(
                (x.len as int, x.text.start as int, x.text.end as int, owned(x.id)),
            ),
            None => reference_link_spec(text.spec_bytes(), at as int) is None,
        },
{
    let bytes = text.as_bytes();
    if !(at < bytes.len() && bytes[at] == LBRACK) || (at > 0 && bytes[at - 1] == BANG) {
        return None;
    }
    let start = at + 1;
    let mut depth: usize = 0;
    let mut i = start;
    proof {
        lemma_close_at(bytes@, start as int, 0);
    }
    let mut end: usize = 0;
    let mut found = false;
    while i < bytes.len() && !found
        invariant
            start == at + 1,
            at < bytes@.len(),
            bytes@ == text.spec_bytes(),
            bytes@[at as int] == LBRACK,
            !(at > 0 && bytes@[at - 1] == BANG),
            start <= i <= bytes@.len(),
            depth <= i - start,
            !found ==> close_at(bytes@, i as int, depth as nat) == close_at(bytes@, start as int, 0),
            found ==> close_at(bytes@, start as int, 0) == Some(end as int),
        decreases bytes@.len() - i,
    {
        let c = bytes[i];
        if c == NL {
            return None;
        } else if c == LBRACK {
            depth += 1;
        } else if c == RBRACK {
            if depth == 0 {
                end = i;
                found = true;
            } else {
                depth -= 1;
            }
        }
        i += 1;
    }
    if !found {
        return None;
    }
    proof {
        lemma_close_at(bytes@, start as int, 0);
    }
    if end == start || bytes[start] == CARET {
        return None;
    }
    proof {
        lemma_after_ascii(bytes@, end as int + 1);
        lemma_str_boundary(text, end as int);
        crate::text::lemma_ascii_boundaries(bytes@);
    }
    let (_, rest) = text.split_at(end);
    proof {
        assert(rest.spec_bytes() =~= bytes@.subrange(end as int, bytes@.len() as int));
    }
    match reference_tail(rest) {
        None => None,
        Some((id, tail)) => {
            proof {
                lemma_find_from(rest.spec_bytes(), 2, rest.spec_bytes().len() as int, RBRACK);
            }
            Some(Reference { len: end + tail - at, text: start..end, id })
        },
    }
}

} // verus!
