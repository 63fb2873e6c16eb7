//! Pieces of the block lowering that read text alone: the offsets of a
//! body that loses its first bytes, the math on a display fence line, and
//! the abbreviation definitions of a paragraph.

use vstd::prelude::*;
use vstd::string::*;
use vstd::utf8::*;
use crate::scan::{attrs_at, eol, lemma_eol, lemma_run_end, lemma_skip_blanks, run_end, skip_blanks};
use crate::text::{
    back_ws, boundary, find_byte, find_from, lemma_after_ascii, lemma_ascii_boundaries,
    lemma_find_from, lemma_slice_valid, lemma_trim_end, lemma_trim_start, owned, push_range,
    range_eq, skip_ws, string_of, substring, trim_end, trim_start, DOLLAR, LBRACK, NL, RBRACE,
    RBRACK, COLON, STAR, SPACE, TAB,
};

use crate::node::{caption_word, CaptionKind};
use crate::text::{has_at, starts_at, LBRACE, SEMI};

verus! {

broadcast use vstd::utf8::encode_utf8_valid_utf8, vstd::utf8::encode_utf8_decode_utf8;

// ---------------------------------------------------------------------------
// Offset stops
// ---------------------------------------------------------------------------

/// What the stop at `i` becomes when the first `skip` bytes of the body
/// are dropped: shifted back when it lies past them; moved to the new
/// start when it is the last stop at or before the cut; dropped
/// otherwise.
pub open spec fn shift_one(stops: Seq<(usize, usize)>, i: int, skip: int) -> Seq<(int, int)> {
    let l = stops[i].0 as int;
    let s = stops[i].1 as int;
    if l >= skip {
        seq![(l - skip, s)]
    } else if !(i + 1 < stops.len() && stops[i + 1].0 <= skip) {
        seq![(0, s + (skip - l))]
    } else {
        seq![]
    }
}

/// The first `n` stops shifted.
pub open spec fn shift_spec(stops: Seq<(usize, usize)>, skip: int, n: int) -> Seq<(int, int)>
    decreases n,
{
    if n <= 0 {
        seq![]
    } else {
        shift_spec(stops, skip, n - 1) + shift_one(stops, n - 1, skip)
    }
}

/// Stops as integer pairs.
pub open spec fn int_pairs(v: Seq<(usize, usize)>) -> Seq<(int, int)> {
    v.map_values(|p: (usize, usize)| (p.0 as int, p.1 as int))
}

/// The `stops` of a collected body whose first `skip` bytes are dropped.
pub fn shift_stops(stops: &[(usize, usize)], skip: usize) -> (r: Vec<(usize, usize)>)
    requires
        forall|i: int|
            0 <= i < stops@.len() && (#[trigger] stops@[i]).0 < skip ==> stops@[i].1 + (skip
                - stops@[i].0) <= usize::MAX,
    ensures
        int_pairs(r@) == shift_spec(stops@, skip as int, stops@.len() as int),
{
    let mut out: Vec<(usize, usize)> = Vec::new();
    let mut i: usize = 0;
    while i < stops.len()
        invariant
            0 <= i <= stops@.len(),
            int_pairs(out@) == shift_spec(stops@, skip as int, i as int),
            forall|k: int|
                0 <= k < stops@.len() && (#[trigger] stops@[k]).0 < skip ==> stops@[k].1 + (skip
                    - stops@[k].0) <= usize::MAX,
        decreases stops@.len() - i,
    {
        let (local, source) = stops[i];
        let ghost before = out@;
        if local >= skip {
            out.push((local - skip, source));
        } else if !(i + 1 < stops.len() && stops[i + 1].0 <= skip) {
            out.push((0, source + (skip - local)));
        }
        proof {
            assert(int_pairs(out@) =~= int_pairs(before) + shift_one(stops@, i as int, skip as int));
        }
        i += 1;
    }
    out
}

// ---------------------------------------------------------------------------
// The head of a display fence
// ---------------------------------------------------------------------------

/// Where the math on the opening line of a display fence sits in the
/// block's text `s`: after the indent and the dollars, up to the end of
/// the line, trimmed; nothing when it is the attribute list.
pub open spec fn math_head_range(s: Seq<u8>) -> (int, int) {
    let a1 = run_end(s, skip_blanks(s, 0), DOLLAR);
    let e0 = find_from(s, a1, s.len() as int, NL);
    let a = trim_start(s, a1, e0);
    let e = trim_end(s, a, e0);
    let head = s.subrange(a, e);
    if attrs_at(head, 0) && head.len() > 0 && head[head.len() - 1] == RBRACE {
        (a, a)
    } else {
        (a, e)
    }
}

/// The math a display fence carries on its own line: what follows the
/// opening `$$` in `source`, the whole block's text. Empty when the fence
/// line holds nothing else, or when what it holds is the attribute list
/// (`$$ {#eq:x}`), which the fence meta already parsed.
pub fn math_head(source: &str) -> (r: &str)
    ensures
        r.spec_bytes() == source.spec_bytes().subrange(
            math_head_range(source.spec_bytes()).0,
            math_head_range(source.spec_bytes()).1,
        ),
{
    let b = source.as_bytes();
    let n = b.len();
    let mut a0: usize = 0;
    while a0 < n && (b[a0] == SPACE || b[a0] == TAB)
        invariant
            a0 <= n == b@.len(),
            skip_blanks(b@, a0 as int) == skip_blanks(b@, 0),
        decreases n - a0,
    {
        a0 += 1;
    }
    let mut a1 = a0;
    while a1 < n && b[a1] == DOLLAR
        invariant
            a0 <= a1 <= n == b@.len(),
            run_end(b@, a1 as int, DOLLAR) == run_end(b@, a0 as int, DOLLAR),
        decreases n - a1,
    {
        a1 += 1;
    }
    let e0 = find_byte(b, a1, n, NL);
    proof {
        lemma_ascii_boundaries(b@);
        lemma_skip_blanks(b@, 0);
        lemma_run_end(b@, a0 as int, DOLLAR);
        if a1 > 0 {
            if a1 > a0 {
                assert(b@[a1 - 1] == DOLLAR);
            } else {
                assert(b@[a1 - 1] == SPACE || b@[a1 - 1] == TAB);
            }
            assert(b@[a1 - 1] < 0x80);
        }
        lemma_find_from(b@, a1 as int, n as int, NL);
        if e0 < n {
            assert(b@[e0 as int] == NL);
        }
        lemma_trim_start(b@, a1 as int, e0 as int);
    }
    let a = skip_ws(b, a1, e0);
    proof {
        lemma_trim_end(b@, a as int, e0 as int);
        crate::text::lemma_str_boundary(source, a as int);
    }
    let e = back_ws(b, a, e0);
    let (_, tail) = source.split_at(a);
    proof {
        assert(tail.spec_bytes() =~= b@.subrange(a as int, n as int));
        crate::text::lemma_slice_valid(b@, a as int, n as int);
        let t = b@.subrange(a as int, n as int);
        if e - a < t.len() {
            assert(t[e - a] == b@[e as int]);
        }
        crate::text::lemma_str_boundary(tail, (e - a) as int);
    }
    let (head, _) = tail.split_at(e - a);
    proof {
        assert(head.spec_bytes() =~= b@.subrange(a as int, e as int));
    }
    let h = head.as_bytes();
    if crate::scan::looks_like_attributes(h, 0) && h.len() > 0 && h[h.len() - 1] == RBRACE {
        proof {
            reveal_strlit("");
            assert(b@.subrange(a as int, a as int) =~= Seq::<u8>::empty());
        }
        ""
    } else {
        head
    }
}

// ---------------------------------------------------------------------------
// Abbreviation definitions
// ---------------------------------------------------------------------------

/// The byte carriage return.
pub const CR: u8 = 0x0d;

/// Where the piece `split_inclusive('\n')` yields from `p` ends: past its
/// line feed, or at the end of the text.
pub open spec fn piece_end(s: Seq<u8>, p: int) -> int {
    if eol(s, p) < s.len() {
        eol(s, p) + 1
    } else {
        s.len() as int
    }
}

/// The end of `s[p..q]` once its trailing line feeds and carriage
/// returns are dropped.
pub open spec fn strip_eol(s: Seq<u8>, p: int, q: int) -> int
    decreases q - p,
{
    if p < q && (s[q - 1] == NL || s[q - 1] == CR) {
        strip_eol(s, p, q - 1)
    } else {
        q
    }
}

/// The first position `k` in `[i, j - 1)` where `]:` starts; `j` when
/// there is none.
pub open spec fn find_close(s: Seq<u8>, i: int, j: int) -> int
    decreases j - i,
{
    if i + 1 >= j {
        j
    } else if s[i] == RBRACK && s[i + 1] == COLON {
        i
    } else {
        find_close(s, i + 1, j)
    }
}

/// Whether `]` occurs in `s[i..j]`.
pub open spec fn has_rbrack(s: Seq<u8>, i: int, j: int) -> bool {
    exists|k: int| i <= k < j && #[trigger] s[k] == RBRACK
}

/// The definition `*[KEY]: expansion` on the line `s[p..le]`: where its
/// trimmed text starts, how long it is, the key, and the trimmed
/// expansion.
pub open spec fn abbrev_line(s: Seq<u8>, p: int, le: int) -> Option<(int, int, Seq<u8>, Seq<u8>)> {
    let a = trim_start(s, p, le);
    let e = trim_end(s, a, le);
    let k = find_close(s, a + 2, e);
    let x = trim_start(s, k + 2, e);
    if !(e - a >= 2 && s[a] == 0x2a && s[a + 1] == LBRACK) || k >= e || k == a + 2 || has_rbrack(
        s,
        a + 2,
        k,
    ) {
        None
    } else {
        Some((a, e - a, s.subrange(a + 2, k), s.subrange(x, trim_end(s, x, e))))
    }
}

/// The definitions of the lines of `s` from `p` on; `None` as soon as a
/// line is not one.
pub open spec fn abbrev_from(s: Seq<u8>, p: int) -> Option<Seq<(int, int, Seq<u8>, Seq<u8>)>>
    decreases s.len() - p,
{
    if p < 0 || p >= s.len() {
        Some(seq![])
    } else {
        let q = piece_end(s, p);
        proof {
            lemma_eol(s, p);
        }
        match abbrev_line(s, p, strip_eol(s, p, q)) {
            None => None,
            Some(x) => match abbrev_from(s, q) {
                None => None,
                Some(rest) => Some(seq![x] + rest),
            },
        }
    }
}

/// The definitions of a paragraph made only of them.
pub open spec fn abbreviations_spec(s: Seq<u8>) -> Option<Seq<(int, int, Seq<u8>, Seq<u8>)>> {
    match abbrev_from(s, 0) {
        Some(v) => if v.len() > 0 {
            Some(v)
        } else {
            None
        },
        None => None,
    }
}

/// Definitions as values.
pub open spec fn abbrev_models(v: Seq<(usize, usize, String, String)>) -> Seq<
    (int, int, Seq<u8>, Seq<u8>),
> {
    v.map_values(|d: (usize, usize, String, String)| (d.0 as int, d.1 as int, owned(d.2), owned(d.3)))
}

/// One definition line.
fn abbrev_at(text: &str, p: usize, le: usize) -> (r: Option<(usize, usize, String, String)>)
    requires
        p <= le <= text.spec_bytes().len(),
        boundary(text.spec_bytes(), p as int),
        boundary(text.spec_bytes(), le as int),
    ensures
        match r {
            Some(d) => abbrev_line(text.spec_bytes(), p as int, le as int) == Some(
                (d.0 as int, d.1 as int, owned(d.2), owned(d.3)),
            ),
            None => abbrev_line(text.spec_bytes(), p as int, le as int) is None,
        },
{
    let b = text.as_bytes();
    proof {
        lemma_trim_start(b@, p as int, le as int);
    }
    let a = skip_ws(b, p, le);
    proof {
        lemma_trim_end(b@, a as int, le as int);
    }
    let e = back_ws(b, a, le);
    if !(e - a >= 2 && b[a] == 0x2a && b[a + 1] == LBRACK) {
        return None;
    }
    let mut k = a + 2;
    while e - k > 1 && !(b[k] == RBRACK && b[k + 1] == COLON)
        invariant
            a + 2 <= k <= e,
            e <= b@.len(),
            find_close(b@, k as int, e as int) == find_close(b@, a + 2, e as int),
        decreases e - k,
    {
        k += 1;
    }
    if e - k < 2 {
        return None;
    }
    if k == a + 2 || find_byte(b, a + 2, k, RBRACK) < k {
        return None;
    }
    proof {
        lemma_ascii_boundaries(b@);
        assert(b@[a + 1] == LBRACK);
        assert(b@[k as int] == RBRACK);
        assert(b@[k + 1] == COLON);
        if !has_rbrack(b@, a + 2, k as int) {
        }
        lemma_trim_start(b@, k + 2, e as int);
    }
    let x = skip_ws(b, k + 2, e);
    proof {
        lemma_trim_end(b@, x as int, e as int);
    }
    let y = back_ws(b, x, e);
    Some((a, e - a, substring(text, a + 2, k), substring(text, x, y)))
}

/// `*[KEY]: expansion` lines, each with the byte offset and length of
/// its trimmed text in `text`; `None` unless every line is one, and
/// there is one at least.
pub fn abbreviations(text: &str) -> (r: Option<Vec<(usize, usize, String, String)>>)
    ensures
        match r {
            Some(v) => abbreviations_spec(text.spec_bytes()) == Some(abbrev_models(v@)),
            None => abbreviations_spec(text.spec_bytes()) is None,
        },
{
    let b = text.as_bytes();
    let n = b.len();
    let mut out: Vec<(usize, usize, String, String)> = Vec::new();
    let mut p: usize = 0;
    proof {
        lemma_ascii_boundaries(b@);
        vstd::utf8::is_char_boundary_start_end_of_seq(b@);
    }
    while p < n
        invariant
            b@ == text.spec_bytes(),
            n == b@.len(),
            p <= n,
            boundary(b@, p as int),
            abbrev_from(b@, 0) == match abbrev_from(b@, p as int) {
                Some(rest) => Some(abbrev_models(out@) + rest),
                None => None::<Seq<(int, int, Seq<u8>, Seq<u8>)>>,
            },
        decreases n - p,
    {
        let nl = crate::scan::line_end(b, p);
        let q = if nl < n {
            nl + 1
        } else {
            n
        };
        let mut le = q;
        while le > p && (b[le - 1] == NL || b[le - 1] == CR)
            invariant
                p <= le <= q <= n,
                n == b@.len(),
                strip_eol(b@, p as int, le as int) == strip_eol(b@, p as int, q as int),
                le < q ==> (b@[le as int] == NL || b@[le as int] == CR),
            decreases le - p,
        {
            le -= 1;
        }
        proof {
            lemma_eol(b@, p as int);
            lemma_ascii_boundaries(b@);
            if le < q {
                assert(b@[le as int] == NL || b@[le as int] == CR);
            } else if q < n {
                assert(b@[q - 1] == NL);
            }
        }
        match abbrev_at(text, p, le) {
            None => {
                return None;
            },
            Some(d) => {
                let ghost before = abbrev_models(out@);
                out.push(d);
                proof {
                    assert(abbrev_models(out@) =~= before.push(
                        (d.0 as int, d.1 as int, owned(d.2), owned(d.3)),
                    ));
                    match abbrev_from(b@, q as int) {
                        Some(rest) => {
                            assert(abbrev_models(out@) + rest =~= before + (seq![
                                (d.0 as int, d.1 as int, owned(d.2), owned(d.3)),
                            ] + rest));
                        },
                        None => {},
                    }
                }
            },
        }
        p = q;
    }
    proof {
        assert(abbrev_models(out@) + Seq::<(int, int, Seq<u8>, Seq<u8>)>::empty() =~= abbrev_models(out@));
    }
    if out.len() == 0 {
        return None;
    }
    Some(out)
}

// ---------------------------------------------------------------------------
// The opening tag of a Markdown-in-HTML block
// ---------------------------------------------------------------------------

/// A byte of an attribute name: `[A-Za-z0-9_:-]`.
pub open spec fn attr_name_byte(b: u8) -> bool {
    crate::text::alnum(b) || b == 0x2d || b == 0x5f || b == COLON
}

/// The first position from `i` below `j` that is not an attribute name
/// byte.
pub open spec fn attr_name_end(s: Seq<u8>, i: int, j: int) -> int
    decreases j - i,
{
    if i < j && attr_name_byte(s[i]) {
        attr_name_end(s, i + 1, j)
    } else {
        i
    }
}

/// An attribute of a tag: its lowered name, and the byte range of its
/// value, when it has one; with where the scan goes on.
pub open spec fn tag_attr(s: Seq<u8>, i: int, e: int) -> Option<(Seq<u8>, Option<(int, int)>, int)> {
    let ne = attr_name_end(s, i, e);
    let v0 = ne + 1;
    let dq = find_from(s, v0 + 1, e, 0x22);
    let sq = find_from(s, v0 + 1, e, 0x27);
    let w = crate::text::next_ws(s, v0, e);
    if ne == i {
        None
    } else if !(ne < e && s[ne] == 0x3d) {
        Some((crate::out::lower(s.subrange(i, ne)), None, ne))
    } else if v0 < e && s[v0] == 0x22 {
        if dq >= e {
            None
        } else {
            Some((crate::out::lower(s.subrange(i, ne)), Some((v0 + 1, dq)), dq + 1))
        }
    } else if v0 < e && s[v0] == 0x27 {
        if sq >= e {
            None
        } else {
            Some((crate::out::lower(s.subrange(i, ne)), Some((v0 + 1, sq)), sq + 1))
        }
    } else {
        Some((crate::out::lower(s.subrange(i, ne)), Some((v0, w)), w))
    }
}

/// What an attribute does to the list: `id` sets the id (to nothing when
/// it has no value), `class` adds the words of its value, `markdown`
/// changes nothing, any other is kept as a key.
pub open spec fn apply_attr(
    s: Seq<u8>,
    acc: crate::attrs::AttrsModel,
    name: Seq<u8>,
    value: Option<(int, int)>,
) -> crate::attrs::AttrsModel {
    let v = match value {
        Some((a, b)) => s.subrange(a, b),
        None => Seq::<u8>::empty(),
    };
    if name == "markdown".spec_bytes() {
        acc
    } else if name == "id".spec_bytes() {
        crate::attrs::AttrsModel {
            id: match value {
                Some((a, b)) => Some(s.subrange(a, b)),
                None => None,
            },
            ..acc
        }
    } else if name == "class".spec_bytes() {
        crate::attrs::AttrsModel {
            classes: acc.classes + match value {
                Some((a, b)) => crate::text::words(s, a, b),
                None => Seq::<Seq<u8>>::empty(),
            },
            ..acc
        }
    } else {
        crate::attrs::AttrsModel { kv: acc.kv.push((name, v)), ..acc }
    }
}

/// The attributes of a tag from `i` to `e`: the list they build, and
/// whether `markdown` is among them; `None` when one is malformed.
pub open spec fn tag_attrs(s: Seq<u8>, i: int, e: int, acc: crate::attrs::AttrsModel, md: bool) -> Option<
    (crate::attrs::AttrsModel, bool),
>
    decreases e - i,
{
    if i >= e {
        Some((acc, md))
    } else {
        match tag_attr(s, i, e) {
            None => None,
            Some((name, value, tail)) => {
                if tail <= i || tail > e {
                    None
                } else {
                    proof {
                        crate::text::lemma_trim_start_range(s, tail, e);
                    }
                    tag_attrs(
                        s,
                        trim_start(s, tail, e),
                        e,
                        apply_attr(s, acc, name, value),
                        md || name == "markdown".spec_bytes(),
                    )
                }
            },
        }
    }
}

/// The opening tag `<tag attr… markdown>` on one line: the lowered tag
/// name and the attribute list built from its attributes, when the tag
/// carries `markdown`.
pub open spec fn markdown_tag_spec(s: Seq<u8>) -> Option<(Seq<u8>, crate::attrs::AttrsModel)> {
    let t0 = trim_start(s, 0, s.len() as int);
    let t1 = trim_end(s, t0, s.len() as int);
    let i = t0 + 1;
    let e = if t1 - 2 >= i && s[t1 - 2] == 0x2f {
        t1 - 2
    } else {
        t1 - 1
    };
    let nm = crate::fmt::name_end(s, i, e);
    if !(t1 - t0 >= 2 && s[t0] == 0x3c && s[t1 - 1] == 0x3e) || nm == i || !crate::text::alpha(
        s[i],
    ) {
        None
    } else {
        match tag_attrs(s, trim_start(s, nm, e), e, crate::attrs::empty_model(), false) {
            Some((attrs, true)) => Some((crate::out::lower(s.subrange(i, nm)), attrs)),
            _ => None,
        }
    }
}

/// The bytes of `s` from `i` to `j`, ASCII letters lowered, as a string
/// and as bytes; both ends must fall on a character boundary.
fn lowered(s: &str, i: usize, j: usize) -> (r: (String, Vec<u8>))
    requires
        i <= j <= s.spec_bytes().len(),
        boundary(s.spec_bytes(), i as int),
        boundary(s.spec_bytes(), j as int),
    ensures
        owned(r.0) == crate::out::lower(s.spec_bytes().subrange(i as int, j as int)),
        r.1@ == owned(r.0),
{
    let b = s.as_bytes();
    let mut v: Vec<u8> = Vec::new();
    push_range(&mut v, b, i, j);
    let l = crate::out::lower_bytes(v.as_slice());
    proof {
        lemma_slice_valid(b@, i as int, j as int);
        crate::out::lemma_lower_valid(v@);
    }
    let c = l.clone();
    (string_of(l), c)
}

/// A value range of an attribute, in integers.
pub open spec fn range_model(v: Option<(usize, usize)>) -> Option<(int, int)> {
    match v {
        Some((x, y)) => Some((x as int, y as int)),
        None => None,
    }
}

/// One attribute of a tag at `k`, a boundary before `e`: its lowered
/// name (as a string and as bytes), the range of its value, and where the
/// scan goes on.
fn read_tag_attr(line: &str, k: usize, e: usize) -> (r: Option<(String, Vec<u8>, Option<(usize, usize)>, usize)>)
    requires
        k < e < line.spec_bytes().len(),
        boundary(line.spec_bytes(), k as int),
        line.spec_bytes()[e as int] < 0x80,
        valid_utf8(line.spec_bytes()),
    ensures
        match r {
            Some((name, lname, value, tail)) => {
                &&& tag_attr(line.spec_bytes(), k as int, e as int) == Some(
                    (owned(name), range_model(value), tail as int),
                )
                &&& lname@ == owned(name)
                &&& k < tail <= e
                &&& boundary(line.spec_bytes(), tail as int)
                &&& match value {
                    Some((x, y)) => x <= y <= e && boundary(line.spec_bytes(), x as int) && boundary(
                        line.spec_bytes(),
                        y as int,
                    ),
                    None => true,
                }
            },
            None => tag_attr(line.spec_bytes(), k as int, e as int) is None,
        },
{
    let b = line.as_bytes();
    proof {
        lemma_ascii_boundaries(b@);
    }
    let mut ne = k;
    while ne < e && (crate::text::is_alnum(b[ne]) || b[ne] == 0x2d || b[ne] == 0x5f || b[ne]
        == COLON)
        invariant
            k <= ne <= e < b@.len(),
            attr_name_end(b@, ne as int, e as int) == attr_name_end(b@, k as int, e as int),
            forall|m: int| k <= m < ne ==> #[trigger] b@[m] < 0x80,
        decreases e - ne,
    {
        ne += 1;
    }
    if ne == k {
        return None;
    }
    proof {
        lemma_after_ascii(b@, ne as int);
    }
    let (name, lname) = lowered(line, k, ne);
    if !(ne < e && b[ne] == 0x3d) {
        return Some((name, lname, None, ne));
    }
    let v0 = ne + 1;
    if v0 < e && (b[v0] == 0x22 || b[v0] == 0x27) {
        let q = b[v0];
        let c = find_byte(b, v0 + 1, e, q);
        if c >= e {
            return None;
        }
        proof {
            lemma_find_from(b@, v0 + 1, e as int, q);
            lemma_after_ascii(b@, v0 + 1);
            lemma_after_ascii(b@, c + 1);
        }
        return Some((name, lname, Some((v0 + 1, c)), c + 1));
    }
    let mut w = v0;
    while w < e && crate::text::ws_at(b, w) == 0
        invariant
            v0 <= w <= e,
            crate::text::next_ws(b@, w as int, e as int) == crate::text::next_ws(
                b@,
                v0 as int,
                e as int,
            ),
        decreases e - w,
    {
        w += 1;
    }
    proof {
        crate::text::lemma_next_ws(b@, v0 as int, e as int);
        lemma_after_ascii(b@, v0 as int);
    }
    Some((name, lname, Some((v0, w)), w))
}

/// Applies one attribute of a tag to the list being built.
fn apply_tag_attr(
    attrs: &mut crate::attrs::Attrs,
    line: &str,
    name: String,
    lname: &Vec<u8>,
    value: Option<(usize, usize)>,
)
    requires
        lname@ == owned(name),
        match value {
            Some((x, y)) => x <= y <= line.spec_bytes().len() && boundary(line.spec_bytes(), x as int)
                && boundary(line.spec_bytes(), y as int),
            None => true,
        },
    ensures
        final(attrs)@ == apply_attr(line.spec_bytes(), old(attrs)@, lname@, range_model(value)),
{
    let ghost before = attrs@;
    if crate::frontmatter::is(lname.as_slice(), "markdown") {
    } else if crate::frontmatter::is(lname.as_slice(), "id") {
        attrs.id = match value {
            Some((x, y)) => Some(substring(line, x, y)),
            None => None,
        };
    } else if crate::frontmatter::is(lname.as_slice(), "class") {
        match value {
            Some((x, y)) => {
                let mut ws = crate::head::collect_words(line, x, y);
                attrs.classes.append(&mut ws);
            },
            None => {},
        }
    } else {
        let v = match value {
            Some((x, y)) => substring(line, x, y),
            None => String::new(),
        };
        attrs.kv.push((name, v));
    }
    proof {
        assert(attrs@ =~= apply_attr(line.spec_bytes(), before, lname@, range_model(value)));
    }
}

/// The opening tag of a Markdown-in-HTML block, `<tag attr… markdown>`
/// on one line, the `markdown` attribute bare or valued: the lowered tag
/// name and the list built from the other attributes (`id` and `class`
/// where those go, any other as a key); `None` when the line is not such
/// a tag or the tag does not carry `markdown`.
pub fn markdown_tag(line: &str) -> (r: Option<(String, crate::attrs::Attrs)>)
    ensures
        match r {
            Some((tag, attrs)) => markdown_tag_spec(line.spec_bytes()) == Some((owned(tag), attrs@)),
            None => markdown_tag_spec(line.spec_bytes()) is None,
        },
{
    let b = line.as_bytes();
    let n = b.len();
    proof {
        lemma_ascii_boundaries(b@);
        vstd::utf8::is_char_boundary_start_end_of_seq(b@);
        lemma_trim_start(b@, 0, n as int);
    }
    let t0 = skip_ws(b, 0, n);
    let t1 = back_ws(b, t0, n);
    if !(t1 - t0 >= 2 && b[t0] == 0x3c && b[t1 - 1] == 0x3e) {
        return None;
    }
    let i = t0 + 1;
    let e = if t1 - 2 >= i && b[t1 - 2] == 0x2f {
        t1 - 2
    } else {
        t1 - 1
    };
    let mut nm = i;
    while nm < e && (crate::text::is_alnum(b[nm]) || b[nm] == 0x2d)
        invariant
            i <= nm <= e < n,
            n == b@.len(),
            crate::fmt::name_end(b@, nm as int, e as int) == crate::fmt::name_end(b@, i as int, e as int),
            forall|k: int| i <= k < nm ==> #[trigger] b@[k] < 0x80,
        decreases e - nm,
    {
        nm += 1;
    }
    if nm == i || !crate::text::is_alpha(b[i]) {
        return None;
    }
    proof {
        lemma_after_ascii(b@, nm as int);
        lemma_after_ascii(b@, i as int);
        lemma_trim_start(b@, nm as int, e as int);
    }
    let (tag, _) = lowered(line, i, nm);
    let mut attrs = crate::attrs::Attrs::new();
    let mut md = false;
    let mut k = skip_ws(b, nm, e);
    let ghost start = k as int;
    let ghost full = tag_attrs(b@, start, e as int, crate::attrs::empty_model(), false);
    assert(markdown_tag_spec(b@) == match full {
        Some((a, true)) => Some((owned(tag), a)),
        _ => None,
    });
    while k < e
        invariant
            b@ == line.spec_bytes(),
            n == b@.len(),
            k <= e < n,
            boundary(b@, k as int),
            b@[e as int] < 0x80,
            valid_utf8(b@),
            tag_attrs(b@, k as int, e as int, attrs@, md) == full,
            markdown_tag_spec(b@) == match full {
                Some((a, true)) => Some((owned(tag), a)),
                _ => None,
            },
        decreases e - k,
    {
        match read_tag_attr(line, k, e) {
            None => {
                proof {
                    assert(tag_attrs(b@, k as int, e as int, attrs@, md) is None);
                }
                return None;
            },
            Some((name, lname, value, tail)) => {
                let is_md = crate::frontmatter::is(lname.as_slice(), "markdown");
                apply_tag_attr(&mut attrs, line, name, &lname, value);
                md = md || is_md;
                proof {
                    lemma_trim_start(b@, tail as int, e as int);
                }
                k = skip_ws(b, tail, e);
            },
        }
    }
    if !md {
        return None;
    }
    Some((tag, attrs))
}

// ---------------------------------------------------------------------------
// The selector of an HTML block fence
// ---------------------------------------------------------------------------

/// A byte of a selector identifier: any byte of a non-ASCII character,
/// an ASCII letter or digit, `-` or `_`.
pub open spec fn ident_byte(x: u8) -> bool {
    x >= 0x80 || crate::text::alnum(x) || x == 0x2d || x == 0x5f
}

/// The first position from `i` below `e` that ends an identifier.
pub open spec fn ident_end(s: Seq<u8>, i: int, e: int) -> int
    decreases e - i,
{
    if i < e && ident_byte(s[i]) {
        ident_end(s, i + 1, e)
    } else {
        i
    }
}

pub proof fn lemma_ident_end(s: Seq<u8>, i: int, e: int)
    requires
        i <= e,
    ensures
        i <= ident_end(s, i, e) <= e,
        ident_end(s, i, e) < e ==> !ident_byte(s[ident_end(s, i, e)]),
        forall|m: int| i <= m < ident_end(s, i, e) ==> ident_byte(#[trigger] s[m]),
    decreases e - i,
{
    if i < e && ident_byte(s[i]) {
        lemma_ident_end(s, i + 1, e);
    }
}

/// An attribute value at `i`: `"…"`, `'…'` or a bare identifier; the
/// range of its text and where the scan goes on.
pub open spec fn sel_value(s: Seq<u8>, i: int, e: int) -> Option<(int, int, int)> {
    let ie = ident_end(s, i, e);
    if i < e && (s[i] == 0x22 || s[i] == 0x27) {
        let c = find_from(s, i + 1, e, s[i]);
        if c >= e {
            None
        } else {
            Some((i + 1, c, c + 1))
        }
    } else if ie == i {
        None
    } else {
        Some((i, ie, ie))
    }
}

/// A `[name]` or `[name=value]` group at `k`: the lowered name, the range
/// of the value (empty when there is none) and where the scan goes on.
pub open spec fn sel_group(s: Seq<u8>, k: int, e: int) -> Option<(Seq<u8>, int, int, int)> {
    let a = trim_start(s, k + 1, e);
    let ne = ident_end(s, a, e);
    let b = trim_start(s, ne, e);
    let c = trim_start(s, b + 1, e);
    let v = if b < e && s[b] == 0x3d {
        sel_value(s, c, e)
    } else {
        Some((b, b, b))
    };
    if ne == a {
        None
    } else {
        match v {
            None => None,
            Some((x, y, t)) => {
                let d = trim_start(s, t, e);
                if d < e && s[d] == RBRACK {
                    Some((crate::out::lower(s.subrange(a, ne)), x, y, d + 1))
                } else {
                    None
                }
            },
        }
    }
}

/// What an attribute of a selector does to the list: `id` sets the id,
/// `class` adds the words of its value, any other is kept as a key.
pub open spec fn put_attr(
    s: Seq<u8>,
    acc: crate::attrs::AttrsModel,
    name: Seq<u8>,
    x: int,
    y: int,
) -> crate::attrs::AttrsModel {
    if name == "id".spec_bytes() {
        crate::attrs::AttrsModel { id: Some(s.subrange(x, y)), ..acc }
    } else if name == "class".spec_bytes() {
        crate::attrs::AttrsModel { classes: acc.classes + crate::text::words(s, x, y), ..acc }
    } else {
        crate::attrs::AttrsModel { kv: acc.kv.push((name, s.subrange(x, y))), ..acc }
    }
}

/// How reading a selector ends: refused, on a character that the reading
/// cannot cut, or with the list it built.
pub enum SelectorScan {
    Refused,
    Read(crate::attrs::AttrsModel),
}

/// The `#id`, `.class` and `[…]` groups of a selector from `k` to `e`.
pub open spec fn sel_items(s: Seq<u8>, k: int, e: int, acc: crate::attrs::AttrsModel) -> SelectorScan
    decreases e - k,
{
    if k >= e {
        SelectorScan::Read(acc)
    } else if s[k] == LBRACK {
        match sel_group(s, k, e) {
            None => SelectorScan::Refused,
            Some((name, x, y, next)) => {
                if next <= k || next > e {
                    SelectorScan::Refused
                } else {
                    sel_items(s, next, e, put_attr(s, acc, name, x, y))
                }
            },
        }
    } else if s[k] >= 0x80 {
        SelectorScan::Refused
    } else {
        let ie = ident_end(s, k + 1, e);
        proof {
            lemma_ident_end(s, k + 1, e);
        }
        if ie == k + 1 || !(s[k] == 0x23 || s[k] == 0x2e) || ie > e {
            SelectorScan::Refused
        } else if s[k] == 0x23 {
            sel_items(s, ie, e, crate::attrs::AttrsModel { id: Some(s.subrange(k + 1, ie)), ..acc })
        } else {
            sel_items(
                s,
                ie,
                e,
                crate::attrs::AttrsModel { classes: acc.classes.push(s.subrange(k + 1, ie)), ..acc },
            )
        }
    }
}

/// The bounds of the selector in `/// html | <selector>`, trimmed, and
/// the end of its tag; `None` when the info string is not of that form.
pub open spec fn selector_bounds(s: Seq<u8>) -> Option<(int, int, int)> {
    let t0 = trim_start(s, 0, s.len() as int);
    let t1 = trim_end(s, t0, s.len() as int);
    let r0 = trim_start(s, t0 + 4, t1);
    let a = trim_start(s, r0 + 1, t1);
    let z = trim_end(s, a, t1);
    let tl = crate::fmt::name_end(s, a, z);
    if !(t0 + 4 <= t1 && s.subrange(t0, t0 + 4) == "html".spec_bytes()) || !(r0 < t1 && s[r0]
        == 0x7c) || tl == a || !crate::text::alpha(s[a]) {
        None
    } else {
        Some((a, tl, z))
    }
}

/// What reading the selector of an info string gives: the lowered tag
/// and how the reading of its groups ends.
pub open spec fn html_selector_spec(s: Seq<u8>) -> Option<(Seq<u8>, SelectorScan)> {
    match selector_bounds(s) {
        None => None,
        Some((a, tl, z)) => Some(
            (crate::out::lower(s.subrange(a, tl)), sel_items(s, tl, z, crate::attrs::empty_model())),
        ),
    }
}

/// `ident_end` of `s[i..e]`.
fn scan_ident(b: &[u8], i: usize, e: usize) -> (r: usize)
    requires
        i <= e <= b@.len(),
    ensures
        r == ident_end(b@, i as int, e as int),
        i <= r <= e,
{
    let mut k = i;
    while k < e && (b[k] >= 0x80 || crate::text::is_alnum(b[k]) || b[k] == 0x2d || b[k] == 0x5f)
        invariant
            i <= k <= e <= b@.len(),
            ident_end(b@, k as int, e as int) == ident_end(b@, i as int, e as int),
        decreases e - k,
    {
        k += 1;
    }
    k
}

/// An identifier that starts at a boundary ends at one.
proof fn lemma_ident_boundary(b: Seq<u8>, i: int, e: int)
    requires
        valid_utf8(b),
        0 <= i <= e <= b.len(),
        boundary(b, e),
    ensures
        boundary(b, ident_end(b, i, e)),
{
    lemma_ident_end(b, i, e);
    lemma_ascii_boundaries(b);
}

/// `sel_value` at `i`, a boundary.
fn read_value(b: &[u8], i: usize, e: usize) -> (r: Option<(usize, usize, usize)>)
    requires
        i <= e <= b@.len(),
        valid_utf8(b@),
        boundary(b@, i as int),
        boundary(b@, e as int),
    ensures
        match r {
            Some((x, y, t)) => sel_value(b@, i as int, e as int) == Some((x as int, y as int, t as int))
                && x <= y <= t <= e && boundary(b@, x as int) && boundary(b@, y as int) && boundary(
                b@,
                t as int,
            ),
            None => sel_value(b@, i as int, e as int) is None,
        },
{
    proof {
        lemma_ascii_boundaries(b@);
    }
    if i < e && (b[i] == 0x22 || b[i] == 0x27) {
        let c = find_byte(b, i + 1, e, b[i]);
        if c >= e {
            return None;
        }
        proof {
            lemma_find_from(b@, i + 1, e as int, b@[i as int]);
        }
        return Some((i + 1, c, c + 1));
    }
    let ie = scan_ident(b, i, e);
    if ie == i {
        return None;
    }
    proof {
        lemma_ident_boundary(b@, i as int, e as int);
    }
    Some((i, ie, ie))
}

/// `sel_group` at `k`, a boundary that holds `[`.
fn read_group(info: &str, k: usize, e: usize) -> (r: Option<(String, Vec<u8>, usize, usize, usize)>)
    requires
        k < e <= info.spec_bytes().len(),
        info.spec_bytes()[k as int] == LBRACK,
        boundary(info.spec_bytes(), e as int),
    ensures
        match r {
            Some((name, lname, x, y, next)) => {
                &&& sel_group(info.spec_bytes(), k as int, e as int) == Some(
                    (owned(name), x as int, y as int, next as int),
                )
                &&& lname@ == owned(name)
                &&& x <= y <= e
                &&& k < next <= e
                &&& boundary(info.spec_bytes(), x as int)
                &&& boundary(info.spec_bytes(), y as int)
                &&& boundary(info.spec_bytes(), next as int)
            },
            None => sel_group(info.spec_bytes(), k as int, e as int) is None,
        },
{
    let b = info.as_bytes();
    proof {
        lemma_ascii_boundaries(b@);
        lemma_trim_start(b@, k + 1, e as int);
    }
    let a = skip_ws(b, k + 1, e);
    let ne = scan_ident(b, a, e);
    if ne == a {
        return None;
    }
    proof {
        lemma_ident_boundary(b@, a as int, e as int);
        lemma_trim_start(b@, ne as int, e as int);
    }
    let bb = skip_ws(b, ne, e);
    let v = if bb < e && b[bb] == 0x3d {
        proof {
            lemma_trim_start(b@, bb + 1, e as int);
        }
        let c = skip_ws(b, bb + 1, e);
        read_value(b, c, e)
    } else {
        Some((bb, bb, bb))
    };
    match v {
        None => None,
        Some((x, y, t)) => {
            proof {
                lemma_trim_start(b@, t as int, e as int);
            }
            let d = skip_ws(b, t, e);
            if d < e && b[d] == RBRACK {
                let (name, lname) = lowered(info, a, ne);
                Some((name, lname, x, y, d + 1))
            } else {
                None
            }
        },
    }
}

/// Applies one `[name=value]` group of a selector to the list.
fn put(
    attrs: &mut crate::attrs::Attrs,
    info: &str,
    name: String,
    lname: &Vec<u8>,
    x: usize,
    y: usize,
)
    requires
        lname@ == owned(name),
        x <= y <= info.spec_bytes().len(),
        boundary(info.spec_bytes(), x as int),
        boundary(info.spec_bytes(), y as int),
    ensures
        final(attrs)@ == put_attr(info.spec_bytes(), old(attrs)@, lname@, x as int, y as int),
{
    let ghost before = attrs@;
    if crate::frontmatter::is(lname.as_slice(), "id") {
        attrs.id = Some(substring(info, x, y));
    } else if crate::frontmatter::is(lname.as_slice(), "class") {
        let mut ws = crate::head::collect_words(info, x, y);
        attrs.classes.append(&mut ws);
    } else {
        attrs.kv.push((name, substring(info, x, y)));
    }
    proof {
        assert(attrs@ =~= put_attr(info.spec_bytes(), before, lname@, x as int, y as int));
    }
}

/// The argument of an HTML block fence, `/// html | <selector>`: the tag
/// that wraps the body, lowered, and the list built from the `#id`,
/// `.class` and `[name]` / `[name=value]` groups that follow it; `None`
/// when the info string is not of that form (a group that begins with a
/// non-ASCII character among them).
#[verifier::spinoff_prover]
#[verifier::rlimit(40)]
pub fn html_selector(info: &str) -> (r: Option<(String, crate::attrs::Attrs)>)
    ensures
        match r {
            Some((tag, attrs)) => html_selector_spec(info.spec_bytes()) == Some(
                (owned(tag), SelectorScan::Read(attrs@)),
            ),
            None => match html_selector_spec(info.spec_bytes()) {
                Some((_, scan)) => scan is Refused,
                None => true,
            },
        },
{
    let b = info.as_bytes();
    let n = b.len();
    proof {
        lemma_ascii_boundaries(b@);
        vstd::utf8::is_char_boundary_start_end_of_seq(b@);
        lemma_trim_start(b@, 0, n as int);
    }
    let t0 = skip_ws(b, 0, n);
    proof {
        lemma_trim_end(b@, t0 as int, n as int);
    }
    let t1 = back_ws(b, t0, n);
    if !(t1 - t0 >= 4 && range_eq(b, t0, t0 + 4, "html".as_bytes())) {
        return None;
    }
    proof {
        reveal_strlit("html");
        vstd::string::is_ascii_spec_bytes("html");
        assert(is_ascii("html"));
        assert("html".spec_bytes()[3] < 0x80);
        assert(b@.subrange(t0 as int, t0 + 4)[3] == b@[t0 + 3]);
        lemma_after_ascii(b@, t0 + 4);
        lemma_trim_start(b@, t0 + 4, t1 as int);
    }
    let r0 = skip_ws(b, t0 + 4, t1);
    if !(r0 < t1 && b[r0] == 0x7c) {
        return None;
    }
    proof {
        lemma_trim_start(b@, r0 + 1, t1 as int);
    }
    let a = skip_ws(b, r0 + 1, t1);
    proof {
        lemma_trim_end(b@, a as int, t1 as int);
    }
    let z = back_ws(b, a, t1);
    let mut tl = a;
    while tl < z && (crate::text::is_alnum(b[tl]) || b[tl] == 0x2d)
        invariant
            a <= tl <= z <= n,
            n == b@.len(),
            crate::fmt::name_end(b@, tl as int, z as int) == crate::fmt::name_end(b@, a as int, z as int),
            forall|k: int| a <= k < tl ==> #[trigger] b@[k] < 0x80,
        decreases z - tl,
    {
        tl += 1;
    }
    if tl == a || !crate::text::is_alpha(b[a]) {
        return None;
    }
    proof {
        lemma_after_ascii(b@, tl as int);
    }
    let (tag, _) = lowered(info, a, tl);
    let ghost full = sel_items(b@, tl as int, z as int, crate::attrs::empty_model());
    assert(html_selector_spec(b@) == Some((owned(tag), full)));
    let mut attrs = crate::attrs::Attrs::new();
    let mut k = tl;
    while k < z
        invariant
            b@ == info.spec_bytes(),
            n == b@.len(),
            k <= z <= n,
            boundary(b@, k as int),
            boundary(b@, z as int),
            valid_utf8(b@),
            sel_items(b@, k as int, z as int, attrs@) == full,
            html_selector_spec(b@) == Some((owned(tag), full)),
        decreases z - k,
    {
        if b[k] == LBRACK {
            match read_group(info, k, z) {
                None => {
                    return None;
                },
                Some((name, lname, x, y, next)) => {
                    put(&mut attrs, info, name, &lname, x, y);
                    k = next;
                },
            }
        } else {
            let c = b[k];
            if c >= 0x80 {
                return None;
            }
            let ie = scan_ident(b, k + 1, z);
            if ie == k + 1 || !(c == 0x23 || c == 0x2e) {
                return None;
            }
            proof {
                lemma_ascii_boundaries(b@);
                lemma_ident_boundary(b@, k + 1, z as int);
            }
            let word = substring(info, k + 1, ie);
            let ghost before = attrs@;
            if c == 0x23 {
                attrs.id = Some(word);
                assert(attrs@ =~= crate::attrs::AttrsModel { id: Some(b@.subrange(k + 1, ie as int)), ..before });
            } else {
                attrs.classes.push(word);
                assert(attrs@ =~= crate::attrs::AttrsModel {
                    classes: before.classes.push(b@.subrange(k + 1, ie as int)),
                    ..before
                });
            }
            k = ie;
        }
    }
    Some((tag, attrs))
}

// ---------------------------------------------------------------------------
// Caption lines
// ---------------------------------------------------------------------------

/// `word` at the start of `t`, followed by a space or a tab.
pub open spec fn caption_word_at(t: Seq<u8>, word: Seq<u8>) -> bool {
    has_at(t, 0, word) && t.len() > word.len() && (t[word.len() as int] == SPACE || t[
        word.len() as int
    ] == TAB)
}

/// The caption a paragraph opens with, read from the text it starts
/// with: `Table:`, `Figure:` or `Listing:` and a blank, as the kind and
/// the length of the word.
pub open spec fn caption_spec(t: Seq<u8>) -> Option<(CaptionKind, int)> {
    if caption_word_at(t, "Table:".spec_bytes()) {
        Some((CaptionKind::Table, "Table:".spec_bytes().len() as int))
    } else if caption_word_at(t, "Figure:".spec_bytes()) {
        Some((CaptionKind::Figure, "Figure:".spec_bytes().len() as int))
    } else if caption_word_at(t, "Listing:".spec_bytes()) {
        Some((CaptionKind::Listing, "Listing:".spec_bytes().len() as int))
    } else {
        None
    }
}

/// Whether `t` opens with `w` and a blank.
fn word_then_blank(t: &[u8], w: &[u8]) -> (r: bool)
    ensures
        r == caption_word_at(t@, w@),
{
    starts_at(t, 0, w) && t.len() > w.len() && (t[w.len()] == SPACE || t[w.len()] == TAB)
}

/// `Kind:` at the start of a paragraph whose first piece is the plain
/// text `first`: the kind and the bytes to skip.
pub fn is_caption(first: &str) -> (r: Option<(CaptionKind, usize)>)
    ensures
        match r {
            Some((k, n)) => caption_spec(first.spec_bytes()) == Some((k, n as int)),
            None => caption_spec(first.spec_bytes()) is None,
        },
{
    let t = first.as_bytes();
    let table = "Table:".as_bytes();
    let figure = "Figure:".as_bytes();
    let listing = "Listing:".as_bytes();
    if word_then_blank(t, table) {
        Some((CaptionKind::Table, table.len()))
    } else if word_then_blank(t, figure) {
        Some((CaptionKind::Figure, figure.len()))
    } else if word_then_blank(t, listing) {
        Some((CaptionKind::Listing, listing.len()))
    } else {
        None
    }
}

/// The bytes of an ASCII literal are its characters.
proof fn lemma_ascii_literal(w: &str)
    requires
        is_ascii(w),
    ensures
        w.spec_bytes().len() == w@.len(),
        forall|k: int| 0 <= k < w@.len() ==> #[trigger] w.spec_bytes()[k] == w@[k] as u8,
{
    vstd::string::is_ascii_spec_bytes(w);
}

/// A caption as written, the word of its kind, a colon and a blank,
/// reads back as a caption of that kind whose word is as long as
/// written.
pub proof fn lemma_caption_reads_back(kind: CaptionKind, rest: Seq<u8>)
    requires
        rest.len() > 0,
        rest[0] == SPACE || rest[0] == TAB,
    ensures
        caption_spec(caption_word(kind) + seq![COLON] + rest) == Some(
            (kind, caption_word(kind).len() + 1 as int),
        ),
{
    reveal_strlit("Table");
    reveal_strlit("Figure");
    reveal_strlit("Listing");
    reveal_strlit("Table:");
    reveal_strlit("Figure:");
    reveal_strlit("Listing:");
    lemma_ascii_literal("Table");
    lemma_ascii_literal("Figure");
    lemma_ascii_literal("Listing");
    lemma_ascii_literal("Table:");
    lemma_ascii_literal("Figure:");
    lemma_ascii_literal("Listing:");
    let t = caption_word(kind) + seq![COLON] + rest;
    let w = caption_word(kind) + seq![COLON];
    assert(t.subrange(0, w.len() as int) =~= w);
    match kind {
        CaptionKind::Table => {
            assert(w =~= "Table:".spec_bytes());
        },
        CaptionKind::Figure => {
            assert(w =~= "Figure:".spec_bytes());
            assert(t[0] != "Table:".spec_bytes()[0]);
        },
        CaptionKind::Listing => {
            assert(w =~= "Listing:".spec_bytes());
            assert(t[0] != "Table:".spec_bytes()[0]);
            assert(t[0] != "Figure:".spec_bytes()[0]);
        },
    }
}

// ---------------------------------------------------------------------------
// The first and last text of a block
// ---------------------------------------------------------------------------

/// The text of a line that disabled a snippet with `;`: the `;` after
/// the leading whitespace dropped, when there is one.
pub open spec fn snippet_unescaped(b: Seq<u8>) -> Seq<u8> {
    let a = trim_start(b, 0, b.len() as int);
    if a < b.len() && b[a] == SEMI {
        b.subrange(0, a) + b.subrange(a + 1, b.len() as int)
    } else {
        b
    }
}

/// Drops the `;` that disabled a snippet line from the first text run of
/// the line's content, once the line has lowered to inlines.
pub fn drop_snippet_escape(text: &mut String)
    ensures
        owned(*final(text)) == snippet_unescaped(owned(*old(text))),
{
    let b = text.as_str().as_bytes();
    let n = b.len();
    proof {
        vstd::utf8::is_char_boundary_start_end_of_seq(b@);
        lemma_trim_start(b@, 0, n as int);
    }
    let a = skip_ws(b, 0, n);
    if a < n && b[a] == SEMI {
        let mut v: Vec<u8> = Vec::new();
        push_range(&mut v, b, 0, a);
        push_range(&mut v, b, a + 1, n);
        proof {
            assert(b@.subrange(0, a as int) + b@.subrange(a + 1, n as int) =~= v@);
            lemma_after_ascii(b@, a + 1);
            lemma_slice_valid(b@, 0, a as int);
            lemma_slice_valid(b@, a + 1, n as int);
            vstd::utf8::valid_utf8_concat(b@.subrange(0, a as int), b@.subrange(a + 1, n as int));
        }
        *text = string_of(v);
    }
}

/// Whether a list item's first text opens with the partial task mark
/// `[.] `.
pub open spec fn partial_mark(b: Seq<u8>) -> bool {
    has_at(b, 0, "[.] ".spec_bytes())
}

/// The `- [.] item` partial task (feature `tasklist.partial`), read from
/// the first text run of the item: the mark is taken off the text.
pub fn take_partial_task(text: &mut String) -> (r: Option<crate::node::Task>)
    ensures
        r == (if partial_mark(owned(*old(text))) {
            Some(crate::node::Task::Partial)
        } else {
            None
        }),
        owned(*final(text)) == if partial_mark(owned(*old(text))) {
            owned(*old(text)).subrange(4, owned(*old(text)).len() as int)
        } else {
            owned(*old(text))
        },
{
    let b = text.as_str().as_bytes();
    let mark = "[.] ".as_bytes();
    if !starts_at(b, 0, mark) {
        return None;
    }
    proof {
        reveal_strlit("[.] ");
        vstd::string::is_ascii_spec_bytes("[.] ");
        assert(is_ascii("[.] "));
        assert(mark@.len() == 4);
        assert(mark@[3] == SPACE);
        assert(b@[3] == SPACE);
        lemma_after_ascii(b@, 4);
        vstd::utf8::is_char_boundary_start_end_of_seq(b@);
    }
    *text = substring(text.as_str(), 4, b.len());
    Some(crate::node::Task::Partial)
}

/// The attribute list a block's last text spells when it is a literal
/// `{…}` left by the inline lowering (block quotes take `{.epigraph}`
/// this way): the text without its trailing whitespace, braces around a
/// list. The text is decoded, so the id's position is not known.
pub open spec fn trailing_attrs_spec(b: Seq<u8>) -> Option<crate::attrs::AttrsModel> {
    let t = b.subrange(0, trim_end(b, 0, b.len() as int));
    if t.len() >= 2 && t[0] == LBRACE && t[t.len() - 1] == RBRACE {
        match crate::head::parse_attrs_spec(t.subrange(1, t.len() - 1)) {
            Some(a) => Some(crate::attrs::AttrsModel { id_span: None, ..a }),
            None => None,
        }
    } else {
        None
    }
}

/// The attribute list a block's last text spells as a literal `{…}`.
pub fn trailing_attrs(last: &str) -> (r: Option<crate::attrs::Attrs>)
    requires
        last.spec_bytes().len() < 0xffff_ffff,
    ensures
        match r {
            Some(a) => trailing_attrs_spec(last.spec_bytes()) == Some(a@),
            None => trailing_attrs_spec(last.spec_bytes()) is None,
        },
{
    let b = last.as_bytes();
    let n = b.len();
    proof {
        vstd::utf8::is_char_boundary_start_end_of_seq(b@);
        lemma_trim_end(b@, 0, n as int);
    }
    let e = back_ws(b, 0, n);
    if !(e >= 2 && b[0] == LBRACE && b[e - 1] == RBRACE) {
        return None;
    }
    proof {
        lemma_after_ascii(b@, 1);
        assert(b@[e - 1] == RBRACE);
        if e - 1 > 0 {
            assert(!vstd::utf8::is_continuation_byte(b@[e - 1]));
        }
    }
    let inner = substring(last, 1, e - 1);
    proof {
        assert(owned(inner) == b@.subrange(0, e as int).subrange(1, e - 1));
    }
    match crate::head::parse_attrs(inner.as_str()) {
        Some(a) => {
            let mut a = a;
            a.id_span = None;
            Some(a)
        },
        None => None,
    }
}

} // verus!
