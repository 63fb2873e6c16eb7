//! The text a tree was parsed from and the source positions of its nodes:
//! what the lowering reads of a node's own text (its first line, its last
//! line, where a fence body or an info string sits in it, where a table
//! cell is spelled).

use vstd::prelude::*;
use vstd::string::*;
use crate::lowerer::Lowerer;
use crate::span::Span;
use crate::text::{
    boundary, find_byte, find_from, lemma_find_from, lemma_str_boundary, range_eq, LBRACE, NL,
};

verus! {

/// A carriage return.
pub const CR: u8 = 0x0d;

/// One end of a node's source: line and column (both from 1), and the
/// byte offset in the text.
#[derive(Clone, Copy, Debug, PartialEq, Eq, Structural)]
pub struct Point {
    pub line: usize,
    pub column: usize,
    pub offset: usize,
}

/// Where a node sits in the text it was parsed from.
#[derive(Clone, Copy, Debug, PartialEq, Eq, Structural)]
pub struct Position {
    pub start: Point,
    pub end: Point,
}

/// The text a tree was parsed from.
pub struct Ctx<'a> {
    pub text: &'a str,
}

/// Whether `p` names a slice of `t` cut at character boundaries.
pub open spec fn in_text(t: Seq<u8>, p: Position) -> bool {
    &&& p.start.offset <= p.end.offset <= t.len()
    &&& boundary(t, p.start.offset as int)
    &&& boundary(t, p.end.offset as int)
}

/// Whether a node's position, where it has one, names a slice of `t`.
pub open spec fn fits(t: Seq<u8>, position: Option<&Position>) -> bool {
    match position {
        Some(p) => in_text(t, *p),
        None => true,
    }
}

/// The first place in `[i, j)` where `pat` occurs whole.
pub open spec fn find_sub(t: Seq<u8>, i: int, j: int, pat: Seq<u8>) -> Option<int>
    decreases j + 1 - i,
{
    if i + pat.len() > j {
        None
    } else if t.subrange(i, i + pat.len()) == pat {
        Some(i)
    } else {
        find_sub(t, i + 1, j, pat)
    }
}

/// What `find_sub` finds: an occurrence inside the range, the first one.
pub proof fn lemma_find_sub(t: Seq<u8>, i: int, j: int, pat: Seq<u8>)
    ensures
        match find_sub(t, i, j, pat) {
            Some(k) => i <= k && k + pat.len() <= j && t.subrange(k, k + pat.len()) == pat && forall|
                m: int,
            | i <= m < k ==> #[trigger] t.subrange(m, m + pat.len()) != pat,
            None => forall|m: int|
                i <= m && m + pat.len() <= j ==> #[trigger] t.subrange(m, m + pat.len()) != pat,
        },
    decreases j + 1 - i,
{
    if i + pat.len() <= j && t.subrange(i, i + pat.len()) != pat {
        lemma_find_sub(t, i + 1, j, pat);
    }
}

/// The first place in `b[i..j]` where `pat` occurs whole.
pub fn find_bytes(b: &[u8], i: usize, j: usize, pat: &[u8]) -> (r: Option<usize>)
    requires
        i <= j <= b@.len(),
    ensures
        match r {
            Some(k) => find_sub(b@, i as int, j as int, pat@) == Some(k as int),
            None => find_sub(b@, i as int, j as int, pat@) is None,
        },
{
    if pat.len() == 0 {
        proof {
            assert(b@.subrange(i as int, i as int) =~= pat@);
        }
        return Some(i);
    }
    let mut k = i;
    while pat.len() <= j - k
        invariant
            i <= k <= j <= b@.len(),
            pat@.len() > 0,
            find_sub(b@, k as int, j as int, pat@) == find_sub(b@, i as int, j as int, pat@),
        decreases j - k,
    {
        if range_eq(b, k, k + pat.len(), pat) {
            return Some(k);
        }
        k += 1;
    }
    None
}

/// Where the first line of `t[s..e]` ends: before its first line feed,
/// and before the carriage return of a `\r\n`, as `str::lines` cuts it.
pub open spec fn first_line_end(t: Seq<u8>, s: int, e: int) -> int {
    let nl = find_from(t, s, e, NL);
    if nl < e && s < nl && t[nl - 1] == CR {
        nl - 1
    } else {
        nl
    }
}

/// Where the last line of `t[s..e]` starts: after its last line feed, or
/// at `s`.
pub open spec fn last_line_start(t: Seq<u8>, s: int, e: int) -> int
    decreases e - s,
{
    if e <= s {
        s
    } else if t[e - 1] == NL {
        e
    } else {
        last_line_start(t, s, e - 1)
    }
}

proof fn lemma_last_line_start(t: Seq<u8>, s: int, e: int)
    requires
        s <= e,
    ensures
        s <= last_line_start(t, s, e) <= e,
        last_line_start(t, s, e) > s ==> t[last_line_start(t, s, e) - 1] == NL,
        forall|k: int| last_line_start(t, s, e) <= k < e ==> t[k] != NL,
    decreases e - s,
{
    if e > s && t[e - 1] != NL {
        lemma_last_line_start(t, s, e - 1);
    }
}

/// Where an attribute list on the first line of `p` starts: just after
/// the first `{` of that line.
pub open spec fn attrs_base_spec(t: Seq<u8>, p: Position) -> Option<int> {
    let (s, e) = (p.start.offset as int, p.end.offset as int);
    let nl = find_from(t, s, e, NL);
    let brace = find_from(t, s, nl, LBRACE);
    if brace < nl {
        Some(brace + 1)
    } else {
        None
    }
}

/// Same on the last line of `p`.
pub open spec fn attrs_base_last_line_spec(t: Seq<u8>, p: Position) -> Option<int> {
    let (s, e) = (p.start.offset as int, p.end.offset as int);
    let brace = find_from(t, last_line_start(t, s, e), e, LBRACE);
    if brace < e {
        Some(brace + 1)
    } else {
        None
    }
}

/// Where a fence body sits in the text of its node: the first place the
/// node's text spells it. An empty body sits nowhere.
pub open spec fn fence_body_spec(t: Seq<u8>, position: Option<&Position>, body: Seq<u8>) -> Option<
    int,
> {
    match position {
        Some(p) => if body.len() == 0 {
            None
        } else {
            find_sub(t, p.start.offset as int, p.end.offset as int, body)
        },
        None => None,
    }
}

/// Where the info string of a `!!!` line sits: the first place the first
/// line of the node spells it after the marker. `None` for an empty
/// info, a node with no text, or a first line the marker does not fit
/// on.
pub open spec fn admonition_info_spec(
    t: Seq<u8>,
    position: Option<&Position>,
    marker: Seq<u8>,
    info: Seq<u8>,
) -> Option<int> {
    match position {
        Some(p) => {
            let (s, e) = (p.start.offset as int, p.end.offset as int);
            let le = first_line_end(t, s, e);
            let m = s + marker.len();
            if info.len() == 0 || s == e || m > le || !boundary(t, m) {
                None
            } else {
                find_sub(t, m, le, info)
            }
        },
        None => None,
    }
}

/// An `Option<usize>` as an `Option<int>`.
pub open spec fn opt_int(r: Option<usize>) -> Option<int> {
    match r {
        Some(k) => Some(k as int),
        None => None,
    }
}

impl<'a> Ctx<'a> {
    /// The source text of a node; empty for a node with no position.
    pub fn slice(&self, position: Option<&Position>) -> (r: &'a str)
        requires
            fits(self.text.spec_bytes(), position),
        ensures
            r.spec_bytes() == match position {
                Some(p) => self.text.spec_bytes().subrange(
                    p.start.offset as int,
                    p.end.offset as int,
                ),
                None => Seq::<u8>::empty(),
            },
    {
        match position {
            Some(p) => {
                let t = self.text;
                proof {
                    lemma_str_boundary(t, p.end.offset as int);
                }
                let (head, _) = t.split_at(p.end.offset);
                proof {
                    let h = head.spec_bytes();
                    if p.start.offset < p.end.offset {
                        assert(h[p.start.offset as int] == t.spec_bytes()[p.start.offset as int]);
                    }
                    assert(boundary(h, p.start.offset as int));
                    lemma_str_boundary(head, p.start.offset as int);
                }
                let (_, mid) = head.split_at(p.start.offset);
                proof {
                    assert(mid.spec_bytes() =~= t.spec_bytes().subrange(
                        p.start.offset as int,
                        p.end.offset as int,
                    ));
                }
                mid
            },
            None => {
                proof {
                    reveal_strlit("");
                }
                ""
            },
        }
    }
}

impl Lowerer {
    /// The local offset of the first `{` on the first line of `position`,
    /// plus one: where an attribute list on that line starts.
    pub fn attrs_base(&self, ctx: &Ctx, position: Option<&Position>) -> (r: Option<usize>)
        requires
            fits(ctx.text.spec_bytes(), position),
        ensures
            opt_int(r) == match position {
                Some(p) => attrs_base_spec(ctx.text.spec_bytes(), *p),
                None => None,
            },
    {
        match position {
            Some(p) => {
                let b = ctx.text.as_bytes();
                let (s, e) = (p.start.offset, p.end.offset);
                let nl = find_byte(b, s, e, NL);
                let brace = find_byte(b, s, nl, LBRACE);
                if brace < nl {
                    Some(brace + 1)
                } else {
                    None
                }
            },
            None => None,
        }
    }

    /// Same on the last line of `position` (display math: the list follows
    /// the closing `$$`).
    pub fn attrs_base_last_line(&self, ctx: &Ctx, position: Option<&Position>) -> (r: Option<usize>)
        requires
            fits(ctx.text.spec_bytes(), position),
        ensures
            opt_int(r) == match position {
                Some(p) => attrs_base_last_line_spec(ctx.text.spec_bytes(), *p),
                None => None,
            },
    {
        match position {
            Some(p) => {
                let b = ctx.text.as_bytes();
                let (s, e) = (p.start.offset, p.end.offset);
                let ls = line_start_back(b, s, e);
                let brace = find_byte(b, ls, e, LBRACE);
                if brace < e {
                    Some(brace + 1)
                } else {
                    None
                }
            },
            None => None,
        }
    }
}

/// Where the last line of `b[s..e]` starts.
fn line_start_back(b: &[u8], s: usize, e: usize) -> (r: usize)
    requires
        s <= e <= b@.len(),
    ensures
        r == last_line_start(b@, s as int, e as int),
        s <= r <= e,
{
    proof {
        lemma_last_line_start(b@, s as int, e as int);
    }
    let mut k = e;
    while k > s && b[k - 1] != NL
        invariant
            s <= k <= e <= b@.len(),
            last_line_start(b@, s as int, k as int) == last_line_start(b@, s as int, e as int),
        decreases k - s,
    {
        k -= 1;
    }
    k
}

/// The local offset, in `ctx`'s text, of a fence body that the node's
/// text spells verbatim: where what is parsed out of the body can take
/// spans of the file.
pub fn fence_body_at(ctx: &Ctx, position: Option<&Position>, body: &str) -> (r: Option<usize>)
    requires
        fits(ctx.text.spec_bytes(), position),
    ensures
        opt_int(r) == fence_body_spec(ctx.text.spec_bytes(), position, body.spec_bytes()),
{
    if body.as_bytes().len() == 0 {
        return None;
    }
    match position {
        Some(p) => find_bytes(ctx.text.as_bytes(), p.start.offset, p.end.offset, body.as_bytes()),
        None => None,
    }
}

/// The local offset, in `ctx`'s text, of the info string of a `!!!`
/// line: after the marker, where the first line spells the info.
pub fn admonition_info_at(ctx: &Ctx, position: Option<&Position>, marker: &str, info: &str) -> (r:
    Option<usize>)
    requires
        fits(ctx.text.spec_bytes(), position),
    ensures
        opt_int(r) == admonition_info_spec(
            ctx.text.spec_bytes(),
            position,
            marker.spec_bytes(),
            info.spec_bytes(),
        ),
{
    let ib = info.as_bytes();
    if ib.len() == 0 {
        return None;
    }
    match position {
        Some(p) => {
            let b = ctx.text.as_bytes();
            let (s, e) = (p.start.offset, p.end.offset);
            if s == e {
                return None;
            }
            let nl = find_byte(b, s, e, NL);
            let le = if nl < e && s < nl && b[nl - 1] == CR {
                nl - 1
            } else {
                nl
            };
            let mb = marker.as_bytes();
            if mb.len() > le - s {
                return None;
            }
            let m = s + mb.len();
            if m != 0 && m < b.len() && m != le && !is_lead(b[m]) {
                return None;
            }
            proof {
                lemma_find_from(b@, s as int, e as int, NL);
                if m == le && le < e {
                    assert(b@[le as int] == NL || b@[le as int] == CR);
                }
            }
            find_bytes(b, m, le, ib)
        },
        None => None,
    }
}

/// The body of a `yaml table` fence and where it sits in the source.
pub struct Payload<'a> {
    pub text: &'a str,
    /// The local offset of `text` in the lowering's text; `None` when the
    /// body is not a verbatim slice of it (an indented fence, whose body
    /// is dedented).
    pub at: Option<usize>,
    /// The fence, for a cell the payload does not spell verbatim.
    pub span: Span,
}

/// Where a cell's text sits in the source: the local offsets of its one
/// occurrence in the payload. A cell that is empty, not spelled in the
/// payload, or spelled there twice has no source of its own.
pub open spec fn locate_spec(p: Seq<u8>, at: Option<usize>, cell: Seq<u8>) -> Option<(int, int)> {
    match at {
        Some(a) => if cell.len() == 0 {
            None
        } else {
            match find_sub(p, 0, p.len() as int, cell) {
                Some(f) => if find_sub(p, f + cell.len(), p.len() as int, cell) is Some {
                    None
                } else {
                    Some((a + f, a + f + cell.len()))
                },
                None => None,
            }
        },
        None => None,
    }
}

impl<'a> Payload<'a> {
    /// The local offsets of `text` in the payload, when it occurs there
    /// exactly once.
    pub fn locate(&self, text: &str) -> (r: Option<(usize, usize)>)
        requires
            self.at matches Some(a) ==> a + self.text.spec_bytes().len() <= usize::MAX,
        ensures
            match r {
                Some((x, y)) => locate_spec(self.text.spec_bytes(), self.at, text.spec_bytes())
                    == Some((x as int, y as int)),
                None => locate_spec(self.text.spec_bytes(), self.at, text.spec_bytes()) is None,
            },
    {
        let at = match self.at {
            Some(a) => a,
            None => return None,
        };
        let cell = text.as_bytes();
        if cell.len() == 0 {
            return None;
        }
        let p = self.text.as_bytes();
        let found = match find_bytes(p, 0, p.len(), cell) {
            Some(f) => f,
            None => return None,
        };
        proof {
            lemma_find_sub(p@, 0, p@.len() as int, cell@);
        }
        let after = found + cell.len();
        if find_bytes(p, after, p.len(), cell).is_some() {
            return None;
        }
        Some((at + found, at + after))
    }
}

/// Whether `x` starts a character rather than continuing one.
fn is_lead(x: u8) -> (r: bool)
    ensures
        r == !vstd::utf8::is_continuation_byte(x),
{
    x < 0x80 || x >= 0xc0
}

} // verus!
