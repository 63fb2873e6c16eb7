//! The MkDocs profile: one function per construct whose PyMdownX or
//! TeXSmith 0.6 spelling differs from the canonical one.
//!
//! Every function returns `true` when it wrote the construct and `false`
//! when the sugar cannot spell this node (a raw text with brackets, an
//! include with a base, …): the caller then prints the canonical form,
//! and nothing was written.

use vstd::prelude::*;
use vstd::string::*;
use vstd::utf8::*;
use crate::attrs::Attrs;
use crate::fmt::{code_span, code_span_text, has_byte, html_tag_spec, is_html_tag};
use crate::head::{attrs_text, attrs_text_spec};
use crate::node::{CaptionKind, CounterItem, Include, RawBlock, RawInline, RefItem, RefItemModel};
use crate::out::{lower, registry_of, Lookup, LookupModel, Out, Registry};
use crate::text::{
    alnum, alphanumeric, char_is_alphanumeric, find_byte, join, lemma_ascii_valid, owned,
    push_range, range_eq, skip_ws, back_ws, string_of, trim_end, trim_start, ws_at, ws_len, BANG,
    BSL, COLON, COMMA, DASH, DOT, HASH, LBRACK, NL, QUOTE, RBRACK, SEMI, CARET, SPACE, UNDERSCORE,
};

verus! {

broadcast use vstd::utf8::encode_utf8_valid_utf8, vstd::utf8::encode_utf8_decode_utf8;

// ---------------------------------------------------------------------------
// Characters
// ---------------------------------------------------------------------------

/// The characters of `s`.
fn chars_of(s: &str) -> (r: Vec<char>)
    ensures
        r@ == s@,
{
    let mut it = s.chars();
    let mut v: Vec<char> = Vec::new();
    let ghost h = s@;
    loop
        invariant
            v@.len() <= h.len(),
            v@ == h.subrange(0, v@.len() as int),
            vstd::std_specs::iter::IteratorSpec::remaining(&it) == h.skip(v@.len() as int),
        ensures
            v@ == h,
        decreases h.len() - v@.len(),
    {
        match it.next() {
            Some(c) => {
                proof {
                    let k = v@.len() as int;
                    assert(h.skip(k).len() > 0);
                    assert(h.skip(k)[0] == h[k]);
                    assert(h.skip(k).drop_first() =~= h.skip(k + 1));
                }
                v.push(c);
                proof {
                    assert(v@ =~= h.subrange(0, v@.len() as int));
                }
            },
            None => {
                proof {
                    assert(h.skip(v@.len() as int).len() == 0);
                    assert(v@ =~= h);
                }
                break;
            },
        }
    }
    v
}

/// A character a sugar spelling can carry bare: alphanumeric, or one of
/// `-_.:+#`.
pub open spec fn bare_char(c: char) -> bool {
    alphanumeric(c) || c == '-' || c == '_' || c == '.' || c == ':' || c == '+' || c == '#'
}

/// A name a sugar spelling can carry bare: a class, a registry, a fence
/// language, an identifier.
pub open spec fn bare_spec(s: Seq<char>) -> bool {
    s.len() > 0 && forall|k: int| 0 <= k < s.len() ==> #[trigger] bare_char(s[k])
}

/// Whether `s` can be carried bare.
fn bare(s: &str) -> (r: bool)
    ensures
        r == bare_spec(s@),
{
    let cs = chars_of(s);
    if cs.len() == 0 {
        return false;
    }
    let mut k: usize = 0;
    while k < cs.len()
        invariant
            cs@ == s@,
            0 <= k <= cs@.len(),
            forall|m: int| 0 <= m < k ==> #[trigger] bare_char(cs@[m]),
        decreases cs@.len() - k,
    {
        let c = cs[k];
        if !(char_is_alphanumeric(c) || c == '-' || c == '_' || c == '.' || c == ':' || c == '+'
            || c == '#') {
            proof {
                assert(!bare_char(cs@[k as int]));
            }
            return false;
        }
        k += 1;
    }
    true
}

// ---------------------------------------------------------------------------
// Keys
// ---------------------------------------------------------------------------

/// A character a key of the `++…++` spelling may hold: alphanumeric,
/// `-`, a space or `"`.
pub open spec fn key_char(c: char) -> bool {
    alphanumeric(c) || c == '-' || c == ' ' || c == '"'
}

/// Whether a key can be spelled between `++`.
pub open spec fn safe_key(s: Seq<char>) -> bool {
    s.len() > 0 && forall|k: int| 0 <= k < s.len() ==> #[trigger] key_char(s[k])
}

/// Whether `s` is a key the `++…++` spelling can hold.
fn is_safe_key(s: &String) -> (r: bool)
    ensures
        r == safe_key(s@),
{
    let cs = chars_of(s.as_str());
    if cs.len() == 0 {
        return false;
    }
    let mut k: usize = 0;
    while k < cs.len()
        invariant
            cs@ == s@,
            0 <= k <= cs@.len(),
            forall|m: int| 0 <= m < k ==> #[trigger] key_char(cs@[m]),
        decreases cs@.len() - k,
    {
        let c = cs[k];
        if !(char_is_alphanumeric(c) || c == '-' || c == ' ' || c == '"') {
            proof {
                assert(!key_char(cs@[k as int]));
            }
            return false;
        }
        k += 1;
    }
    true
}

/// The bytes of the strings of a list.
pub open spec fn strs(v: Seq<String>) -> Seq<Seq<u8>> {
    v.map_values(|s: String| owned(s))
}

/// Writes the strings of `parts` with `sep` between each two.
fn push_join(out: &mut Out, parts: &[String], sep: &str)
    requires
        old(out).wf(),
    ensures
        final(out).wf(),
        final(out)@.text == old(out)@.text + join(strs(parts@), sep.spec_bytes()),
        final(out)@.lookup == old(out)@.lookup,
{
    let ghost start = out@.text;
    let mut i: usize = 0;
    while i < parts.len()
        invariant
            out.wf(),
            0 <= i <= parts@.len(),
            out@.text == start + join(strs(parts@).subrange(0, i as int), sep.spec_bytes()),
            out@.lookup == old(out)@.lookup,
        decreases parts@.len() - i,
    {
        let ghost pre = strs(parts@).subrange(0, i as int);
        let ghost next = strs(parts@).subrange(0, i + 1);
        assert(next.drop_last() =~= pre);
        if i > 0 {
            out.push(sep);
        }
        out.push(parts[i].as_str());
        proof {
            assert(next.last() == owned(parts@[i as int]));
            assert(out@.text =~= start + join(next, sep.spec_bytes()));
        }
        i += 1;
    }
    proof {
        assert(strs(parts@).subrange(0, parts@.len() as int) =~= strs(parts@));
    }
}

/// `++ctrl+alt+s++`: keys that hold only letters, digits, `-`, spaces and
/// quotes, not after a `+` already printed.
pub open spec fn keys_ok(keys: Seq<String>, last: Option<char>) -> bool {
    &&& keys.len() > 0
    &&& forall|k: int| 0 <= k < keys.len() ==> #[trigger] safe_key(keys[k]@)
    &&& last != Some('+')
}

/// `++ctrl+alt+s++`. The parser reads the run as Markdown before it
/// splits on `+`, so a key may only hold letters, digits, `-`, spaces and
/// quotes.
#[verifier::loop_isolation(false)]
pub fn keys(out: &mut Out, list: &[String]) -> (r: bool)
    requires
        old(out).wf(),
    ensures
        final(out).wf(),
        final(out)@.lookup == old(out)@.lookup,
        r == keys_ok(
            list@,
            crate::text::char_before(old(out)@.text, old(out)@.text.len() as int),
        ),
        r ==> final(out)@.text == old(out)@.text + "++".spec_bytes() + join(
            strs(list@),
            "+".spec_bytes(),
        ) + "++".spec_bytes(),
        !r ==> final(out)@.text == old(out)@.text,
{
    if list.len() == 0 {
        return false;
    }
    let mut i: usize = 0;
    while i < list.len()
        invariant
            0 <= i <= list@.len(),
            forall|m: int| 0 <= m < i ==> #[trigger] safe_key(list@[m]@),
        decreases list@.len() - i,
    {
        if !is_safe_key(&list[i]) {
            return false;
        }
        i += 1;
    }
    if out.last_char() == Some('+') {
        return false;
    }
    out.push("++");
    push_join(out, list, "+");
    out.push("++");
    true
}

// ---------------------------------------------------------------------------
// Code
// ---------------------------------------------------------------------------

/// Whether inline code with a language has the `#!lang code` spelling:
/// a bare language, and a text that is not empty, does not start with
/// whitespace and holds no line break.
pub open spec fn code_ok(text: Seq<u8>, lang: Seq<char>) -> bool {
    &&& bare_spec(lang)
    &&& text.len() > 0
    &&& ws_len(text, 0) == 0
    &&& !has_byte(text, 0, text.len() as int, NL)
}

/// `` `#!py code` `` (pymdownx.inlinehilite).
pub fn code(out: &mut Out, text: &str, lang: &str, in_cell: bool) -> (r: bool)
    requires
        old(out).wf(),
    ensures
        final(out).wf(),
        final(out)@.lookup == old(out)@.lookup,
        r == code_ok(text.spec_bytes(), lang@),
        r ==> final(out)@.text == old(out)@.text + code_span_text(
            seq![HASH, BANG] + lang.spec_bytes() + seq![SPACE] + text.spec_bytes(),
            in_cell,
        ),
        !r ==> final(out)@.text == old(out)@.text,
{
    let t = text.as_bytes();
    if !bare(lang) || t.len() == 0 || ws_at(t, 0) > 0 {
        return false;
    }
    if find_byte(t, 0, t.len(), NL) < t.len() {
        return false;
    }
    let mut v: Vec<u8> = Vec::new();
    v.push(HASH);
    v.push(BANG);
    let l = lang.as_bytes();
    push_range(&mut v, l, 0, l.len());
    v.push(SPACE);
    push_range(&mut v, t, 0, t.len());
    proof {
        assert(l@.subrange(0, l@.len() as int) =~= l@);
        assert(t@.subrange(0, t@.len() as int) =~= t@);
        let h = seq![HASH, BANG];
        assert(v@ =~= h + l@ + seq![SPACE] + t@);
        lemma_ascii_valid(h);
        lemma_ascii_valid(seq![SPACE]);
        vstd::utf8::valid_utf8_concat(h, l@);
        vstd::utf8::valid_utf8_concat(h + l@, seq![SPACE]);
        vstd::utf8::valid_utf8_concat(h + l@ + seq![SPACE], t@);
    }
    let s = string_of(v);
    code_span(out, s.as_str(), in_cell);
    true
}

// ---------------------------------------------------------------------------
// Counters, anchors, raw text, includes
// ---------------------------------------------------------------------------

/// Whether a counter item has the `#{prefix:key}` spelling: the profile
/// is on, the prefix is declared, and the key is bare with no `:`.
pub open spec fn counter_ok(m: Option<LookupModel>, n: CounterItem) -> bool {
    &&& m is Some
    &&& m->0.heads.contains(lower(owned(n.prefix)))
    &&& bare_spec(n.key@)
    &&& !has_byte(owned(n.key), 0, owned(n.key).len() as int, COLON)
}

/// `#{prefix:key}`, recognised by the parser only for a declared prefix,
/// so an unknown prefix keeps the role.
pub fn counter(out: &mut Out, n: &CounterItem) -> (r: bool)
    requires
        old(out).wf(),
    ensures
        final(out).wf(),
        final(out)@.lookup == old(out)@.lookup,
        r == counter_ok(old(out)@.lookup, *n),
        r ==> final(out)@.text == old(out)@.text + "#{".spec_bytes() + owned(n.prefix)
            + ":".spec_bytes() + owned(n.key) + "}".spec_bytes(),
        !r ==> final(out)@.text == old(out)@.text,
{
    let ok = match out.mkdocs() {
        None => false,
        Some(lookup) => {
            let k = n.key.as_str().as_bytes();
            lookup.is_head(n.prefix.as_str().as_bytes()) && bare(n.key.as_str()) && find_byte(
                k,
                0,
                k.len(),
                COLON,
            ) >= k.len()
        },
    };
    if !ok {
        return false;
    }
    out.push("#{");
    out.push(n.prefix.as_str());
    out.push(":");
    out.push(n.key.as_str());
    out.push("}");
    true
}

/// `[]{#id}` as `[](){#id}`, the empty-link anchor idiom: only a span
/// with no content and an id is an anchor; `[text]{#id}` is an attributed
/// phrase. `has_content` says whether the span holds inlines.
pub fn anchor(out: &mut Out, attrs: &Attrs, has_content: bool) -> (r: bool)
    requires
        old(out).wf(),
    ensures
        final(out).wf(),
        final(out)@.lookup == old(out)@.lookup,
        r == (!has_content && attrs.id is Some),
        r ==> final(out)@.text == old(out)@.text + "[]()".spec_bytes() + attrs_text_spec(attrs@),
        !r ==> final(out)@.text == old(out)@.text,
{
    if has_content || attrs.id.is_none() {
        return false;
    }
    out.push("[]()");
    let t = attrs_text(attrs);
    out.push(t.as_str());
    true
}

/// Whether `s` ends with a backslash.
pub open spec fn ends_backslash(s: Seq<u8>) -> bool {
    s.len() > 0 && s[s.len() - 1] == BSL
}

/// Whether a raw inline has the `{format}[text]` spelling: a format the
/// profile knows, a text with no bracket or line break that does not end
/// with a backslash, and not an HTML tag (which prints as typed).
pub open spec fn raw_inline_ok(n: RawInline) -> bool {
    let f = owned(n.format);
    let t = owned(n.text);
    &&& f == "latex".spec_bytes() || f == "typst".spec_bytes() || f == "html".spec_bytes()
    &&& !has_byte(t, 0, t.len() as int, LBRACK)
    &&& !has_byte(t, 0, t.len() as int, RBRACK)
    &&& !has_byte(t, 0, t.len() as int, NL)
    &&& !ends_backslash(t)
    &&& !(f == "html".spec_bytes() && html_tag_spec(t))
}

/// Whether `s` is the bytes of `lit`.
fn is_str(s: &String, lit: &str) -> (r: bool)
    ensures
        r == (owned(*s) == lit.spec_bytes()),
{
    let b = s.as_str().as_bytes();
    let r = range_eq(b, 0, b.len(), lit.as_bytes());
    proof {
        assert(b@.subrange(0, b@.len() as int) =~= b@);
    }
    r
}

/// `{latex}[…]`, `{typst}[…]`, `{html}[…]`: the group is taken verbatim
/// by the parser, so the text may hold no bracket and may not end in a
/// backslash.
pub fn raw_inline(out: &mut Out, n: &RawInline) -> (r: bool)
    requires
        old(out).wf(),
    ensures
        final(out).wf(),
        final(out)@.lookup == old(out)@.lookup,
        r == raw_inline_ok(*n),
        r ==> final(out)@.text == old(out)@.text + "{".spec_bytes() + owned(n.format)
            + "}[".spec_bytes() + owned(n.text) + "]".spec_bytes(),
        !r ==> final(out)@.text == old(out)@.text,
{
    let html = is_str(&n.format, "html");
    let known = is_str(&n.format, "latex") || is_str(&n.format, "typst") || html;
    let t = n.text.as_str().as_bytes();
    let len = t.len();
    if !known || find_byte(t, 0, len, LBRACK) < len || find_byte(t, 0, len, RBRACK) < len
        || find_byte(t, 0, len, NL) < len || (len > 0 && t[len - 1] == BSL) {
        return false;
    }
    if html && is_html_tag(n.text.as_str()) {
        return false;
    }
    out.push("{");
    out.push(n.format.as_str());
    out.push("}[");
    out.push(n.text.as_str());
    out.push("]");
    true
}

/// Whether an include has the `--8<-- "file"` spelling: no base, and a
/// path that is not empty and holds no quote or line break.
pub open spec fn include_ok(i: Include) -> bool {
    let p = owned(i.path);
    &&& i.base is None
    &&& p.len() > 0
    &&& !has_byte(p, 0, p.len() as int, QUOTE)
    &&& !has_byte(p, 0, p.len() as int, NL)
}

/// `--8<-- "file"` (pymdownx.snippets); a `base` has no snippet spelling.
pub fn include_snippet(out: &mut Out, i: &Include) -> (r: bool)
    requires
        old(out).wf(),
    ensures
        final(out).wf(),
        final(out)@.lookup == old(out)@.lookup,
        r == include_ok(*i),
        r ==> final(out)@.text == old(out)@.text + "--8<-- \"".spec_bytes() + owned(i.path)
            + "\"\n".spec_bytes(),
        !r ==> final(out)@.text == old(out)@.text,
{
    let p = i.path.as_str().as_bytes();
    let len = p.len();
    if i.base.is_some() || find_byte(p, 0, len, QUOTE) < len || find_byte(p, 0, len, NL) < len
        || len == 0 {
        return false;
    }
    out.push("--8<-- \"");
    out.push(i.path.as_str());
    out.push("\"\n");
    true
}

// ---------------------------------------------------------------------------
// References
// ---------------------------------------------------------------------------

/// Whether the byte at `k` of a key starts whitespace or is one of
/// `][,;^`, which a footnote or glossary spelling cannot hold.
pub open spec fn bad_key_at(s: Seq<u8>, k: int) -> bool {
    ws_len(s, k) > 0 || s[k] == RBRACK || s[k] == LBRACK || s[k] == COMMA || s[k] == SEMI || s[k]
        == CARET
}

/// A reference item with nothing but a key, and a key a sugar spelling
/// can hold.
pub open spec fn plain_item(it: RefItemModel) -> bool {
    &&& it.prefix is None
    &&& it.suffix is None
    &&& !it.suppress_author
    &&& !it.narrative
    &&& it.key.len() > 0
    &&& forall|k: int| 0 <= k < it.key.len() ==> !#[trigger] bad_key_at(it.key, k)
}

/// A byte of the bare-key class `[A-Za-z0-9_:.-]`.
pub open spec fn footnote_byte(b: u8) -> bool {
    alnum(b) || b == UNDERSCORE || b == COLON || b == DOT || b == DASH
}

/// The keys of a list of items.
pub open spec fn item_keys(items: Seq<RefItemModel>) -> Seq<Seq<u8>> {
    items.map_values(|it: RefItemModel| it.key)
}

/// The MkDocs spelling of a reference, when it has one: `[](gls:term)`
/// for a lone glossary reference; `[^key]` for a lone citation and
/// `^[k1,k2]` for a group of them, when every key is a bibliography key
/// of the bare-key class that no footnote uses.
pub open spec fn mk_reference(m: LookupModel, items: Seq<RefItemModel>) -> Option<Seq<u8>> {
    if items.len() == 0 || !(forall|i: int| 0 <= i < items.len() ==> #[trigger] plain_item(items[i])) {
        None
    } else if items.len() == 1 && registry_of(m, items[0].key) == Registry::Glossary {
        Some("[](".spec_bytes() + items[0].key + ")".spec_bytes())
    } else if (forall|i: int|
        0 <= i < items.len() ==> #[trigger] registry_of(m, items[i].key) == Registry::Bibliography)
        && (forall|i: int| 0 <= i < items.len() ==> !m.footnotes.contains(#[trigger] items[i].key))
        && (forall|i: int, k: int|
        0 <= i < items.len() && 0 <= k < items[i].key.len() ==> footnote_byte(
            #[trigger] items[i].key[k],
        )) {
        if items.len() == 1 {
            Some("[^".spec_bytes() + items[0].key + "]".spec_bytes())
        } else {
            Some("^[".spec_bytes() + join(item_keys(items), ",".spec_bytes()) + "]".spec_bytes())
        }
    } else {
        None
    }
}

/// Whether `item` is a plain item.
fn is_plain(item: &RefItem) -> (r: bool)
    ensures
        r == plain_item(item@),
{
    if item.prefix.is_some() || item.suffix.is_some() || item.suppress_author || item.narrative {
        return false;
    }
    let b = item.key.as_str().as_bytes();
    if b.len() == 0 {
        return false;
    }
    let mut k: usize = 0;
    while k < b.len()
        invariant
            b@ == item@.key,
            0 <= k <= b@.len(),
            forall|m: int| 0 <= m < k ==> !#[trigger] bad_key_at(b@, m),
        decreases b@.len() - k,
    {
        let x = b[k];
        if ws_at(b, k) > 0 || x == RBRACK || x == LBRACK || x == COMMA || x == SEMI || x == CARET {
            proof {
                assert(bad_key_at(b@, k as int));
            }
            return false;
        }
        k += 1;
    }
    true
}

/// Whether every byte of `b` is of the bare-key class.
fn footnote_key(b: &[u8]) -> (r: bool)
    ensures
        r == forall|k: int| 0 <= k < b@.len() ==> footnote_byte(#[trigger] b@[k]),
{
    let mut k: usize = 0;
    while k < b.len()
        invariant
            0 <= k <= b@.len(),
            forall|m: int| 0 <= m < k ==> footnote_byte(#[trigger] b@[m]),
        decreases b@.len() - k,
    {
        let x = b[k];
        if !(crate::text::is_alnum(x) || x == UNDERSCORE || x == COLON || x == DOT || x == DASH) {
            return false;
        }
        k += 1;
    }
    true
}

/// What the reference spelling is decided on: whether every item is
/// plain, whether there is one glossary item alone, and whether every
/// item is a bibliography key of the bare-key class no footnote uses.
fn reference_plan(lookup: &Lookup, items: &[RefItem]) -> (r: (bool, bool, bool))
    ensures
        r.0 == (forall|i: int| 0 <= i < items@.len() ==> #[trigger] plain_item(items@[i]@)),
        r.1 == (items@.len() == 1 && registry_of(lookup@, items@[0]@.key) == Registry::Glossary),
        r.2 == ((forall|i: int|
            0 <= i < items@.len() ==> #[trigger] registry_of(lookup@, items@[i]@.key)
                == Registry::Bibliography) && (forall|i: int|
            0 <= i < items@.len() ==> !lookup@.footnotes.contains(#[trigger] items@[i]@.key)) && (
        forall|i: int, k: int|
            0 <= i < items@.len() && 0 <= k < items@[i]@.key.len() ==> footnote_byte(
                #[trigger] items@[i]@.key[k],
            ))),
{
    let mut plain = true;
    let mut bib = true;
    let mut i: usize = 0;
    while i < items.len()
        invariant
            0 <= i <= items@.len(),
            plain == (forall|m: int| 0 <= m < i ==> #[trigger] plain_item(items@[m]@)),
            bib == ((forall|m: int|
                0 <= m < i ==> #[trigger] registry_of(lookup@, items@[m]@.key)
                    == Registry::Bibliography) && (forall|m: int|
                0 <= m < i ==> !lookup@.footnotes.contains(#[trigger] items@[m]@.key)) && (forall|
                m: int,
                k: int,
            |
                0 <= m < i && 0 <= k < items@[m]@.key.len() ==> footnote_byte(
                    #[trigger] items@[m]@.key[k],
                ))),
        decreases items@.len() - i,
    {
        let key = items[i].key.as_str().as_bytes();
        let p = is_plain(&items[i]);
        let reg = lookup.registry(key);
        let is_bib = match reg {
            Registry::Bibliography => true,
            _ => false,
        };
        let ok = is_bib && !lookup.is_footnote(key) && footnote_key(key);
        proof {
            if !p {
                assert(!plain_item(items@[i as int]@));
            }
            if !ok {
                if !is_bib {
                    assert(registry_of(lookup@, items@[i as int]@.key) != Registry::Bibliography);
                } else if lookup@.footnotes.contains(key@) {
                    assert(lookup@.footnotes.contains(items@[i as int]@.key));
                } else {
                    let k = choose|k: int| 0 <= k < key@.len() && !footnote_byte(#[trigger] key@[k]);
                    assert(!footnote_byte(items@[i as int]@.key[k]));
                }
            }
        }
        plain = plain && p;
        bib = bib && ok;
        i += 1;
    }
    let single = if items.len() == 1 {
        match lookup.registry(items[0].key.as_str().as_bytes()) {
            Registry::Glossary => true,
            _ => false,
        }
    } else {
        false
    };
    (plain, single, bib)
}

/// `[^key]` and `^[k1,k2]` citations, `[](gls:term)` glossary references.
/// Label references keep `@key`, which TeXSmith 0.6 reads.
pub fn reference(out: &mut Out, items: &[RefItem]) -> (r: bool)
    requires
        old(out).wf(),
    ensures
        final(out).wf(),
        final(out)@.lookup == old(out)@.lookup,
        r == (old(out)@.lookup matches Some(m) && mk_reference(
            m,
            crate::node::item_models(items@),
        ) is Some),
        r ==> final(out)@.text == old(out)@.text + mk_reference(
            old(out)@.lookup->0,
            crate::node::item_models(items@),
        )->0,
        !r ==> final(out)@.text == old(out)@.text,
{
    let ghost models = crate::node::item_models(items@);
    let plan = match out.mkdocs() {
        None => None,
        Some(lookup) => Some(reference_plan(lookup, items)),
    };
    let (plain, single, bib) = match plan {
        None => {
            return false;
        },
        Some(p) => p,
    };
    proof {
        assert forall|i: int| 0 <= i < items@.len() implies models[i] == #[trigger] items@[i]@ by {}
    }
    if items.len() == 0 || !plain {
        return false;
    }
    if single {
        out.push("[](");
        out.push(items[0].key.as_str());
        out.push(")");
        return true;
    }
    if !bib {
        return false;
    }
    if items.len() == 1 {
        out.push("[^");
        out.push(items[0].key.as_str());
        out.push("]");
        return true;
    }
    let ghost start = out@.text;
    out.push("^[");
    let ghost head = out@.text;
    let mut i: usize = 0;
    while i < items.len()
        invariant
            out.wf(),
            out@.lookup == old(out)@.lookup,
            models == crate::node::item_models(items@),
            0 <= i <= items@.len(),
            out@.text == head + join(item_keys(models).subrange(0, i as int), ",".spec_bytes()),
        decreases items@.len() - i,
    {
        let ghost pre = item_keys(models).subrange(0, i as int);
        let ghost next = item_keys(models).subrange(0, i + 1);
        assert(next.drop_last() =~= pre);
        if i > 0 {
            out.push(",");
        }
        out.push(items[i].key.as_str());
        proof {
            assert(next.last() == items@[i as int]@.key);
            assert(out@.text =~= head + join(next, ",".spec_bytes()));
        }
        i += 1;
    }
    out.push("]");
    proof {
        assert(item_keys(models).subrange(0, items@.len() as int) =~= item_keys(models));
    }
    true
}

// ---------------------------------------------------------------------------
// Raw blocks
// ---------------------------------------------------------------------------

/// Whether a line starts at `i`: at the start, or after a line feed.
pub open spec fn line_start(s: Seq<u8>, i: int) -> bool {
    i == 0 || (0 < i <= s.len() && s[i - 1] == NL)
}

/// Whether the line that starts at `i` is `///` once trimmed.
pub open spec fn fence_line_at(s: Seq<u8>, i: int) -> bool {
    let j = crate::scan::eol(s, i);
    let a = trim_start(s, i, j);
    s.subrange(a, trim_end(s, a, j)) == "///".spec_bytes()
}

/// Whether some line of `s` is `///` once trimmed.
pub open spec fn has_fence_line(s: Seq<u8>) -> bool {
    exists|i: int| 0 <= i <= s.len() && line_start(s, i) && #[trigger] fence_line_at(s, i)
}

/// Whether a raw block has the `/// latex … ///` spelling: a LaTeX block
/// none of whose lines is the closing `///`.
pub open spec fn raw_block_ok(r: RawBlock) -> bool {
    owned(r.format) == "latex".spec_bytes() && !has_fence_line(owned(r.text))
}

/// `/// latex … ///`, the only backend the slash block ever spelled.
pub fn raw_block(out: &mut Out, r: &RawBlock) -> (ok: bool)
    requires
        old(out).wf(),
    ensures
        final(out).wf(),
        final(out)@.lookup == old(out)@.lookup,
        ok == raw_block_ok(*r),
        ok ==> final(out)@.text == old(out)@.text + "/// latex\n".spec_bytes() + (if owned(
            r.text,
        ).len() > 0 {
            owned(r.text) + "\n".spec_bytes()
        } else {
            Seq::<u8>::empty()
        }) + "///\n".spec_bytes(),
        !ok ==> final(out)@.text == old(out)@.text,
{
    if !is_str(&r.format, "latex") {
        return false;
    }
    let b = r.text.as_str().as_bytes();
    let n = b.len();
    let fence = "///".as_bytes();
    let mut i: usize = 0;
    loop
        invariant
            out.wf(),
            out@ == old(out)@,
            owned(r.format) == "latex".spec_bytes(),
            b@ == owned(r.text),
            n == b@.len(),
            fence@ == "///".spec_bytes(),
            0 <= i <= n,
            line_start(b@, i as int),
            forall|m: int|
                0 <= m < i && line_start(b@, m) ==> !#[trigger] fence_line_at(b@, m),
        ensures
            i <= n,
            forall|m: int|
                0 <= m <= n && line_start(b@, m) && m <= i ==> !#[trigger] fence_line_at(b@, m),
            forall|m: int| i < m <= n ==> !line_start(b@, m),
        decreases n - i,
    {
        let j = crate::scan::line_end(b, i);
        let a = skip_ws(b, i, j);
        let e = back_ws(b, a, j);
        if range_eq(b, a, e, fence) {
            proof {
                assert(fence_line_at(b@, i as int));
            }
            return false;
        }
        if j >= n {
            proof {
                assert forall|m: int| i < m <= n implies !line_start(b@, m) by {
                    assert(b@[m - 1] != NL);
                }
            }
            break;
        }
        proof {
            assert forall|m: int| 0 <= m < j + 1 && line_start(b@, m) implies !#[trigger] fence_line_at(
                b@,
                m,
            ) by {
                if m > i {
                    assert(b@[m - 1] != NL);
                }
            }
        }
        i = j + 1;
    }
    proof {
        assert(!has_fence_line(b@));
    }
    out.push("/// latex\n");
    if n > 0 {
        out.push(r.text.as_str());
        out.push("\n");
    }
    out.push("///\n");
    true
}

// ---------------------------------------------------------------------------
// Block order
// ---------------------------------------------------------------------------

/// What the printing order reads of a block: a table, its configuration,
/// a caption and its kind, another float (a figure, a code block, a
/// paragraph of images), or anything else.
#[derive(Clone, Copy, Debug, PartialEq, Eq, Structural)]
pub enum BlockShape {
    Table,
    TableConfig,
    Caption(CaptionKind),
    Float,
    Other,
}

/// Whether a caption line attaches to the block.
pub open spec fn shape_is_float(b: BlockShape) -> bool {
    b is Table || b is TableConfig || b is Float
}

/// Where the blocks of a table end: after its configuration, if one
/// follows it.
pub open spec fn table_end(b: Seq<BlockShape>, i: int) -> int {
    if i + 1 < b.len() && b[i + 1] is TableConfig {
        i + 2
    } else {
        i + 1
    }
}

/// Whether the table at `i` has a table caption after it that moves
/// before it: the block printed last (`out`'s last) is no float.
pub open spec fn caption_moves(b: Seq<BlockShape>, i: int, out: Seq<int>) -> bool {
    let at = table_end(b, i);
    &&& b[i] is Table
    &&& at < b.len()
    &&& b[at] == BlockShape::Caption(CaptionKind::Table)
    &&& !(out.len() > 0 && shape_is_float(b[out.last()]))
}

/// The positions `i` to `j`, in order.
pub open spec fn positions(i: int, j: int) -> Seq<int> {
    Seq::new((j - i) as nat, |k: int| i + k)
}

/// The printing order from block `i` on, `out` printed so far: a table
/// caption moves before its table (and its configuration) unless the
/// block printed before is a float, which the parser would attach the
/// caption to first; every other block keeps its place.
pub open spec fn order_from(b: Seq<BlockShape>, i: int, out: Seq<int>) -> Seq<int>
    decreases b.len() - i,
{
    if i < 0 || i >= b.len() {
        out
    } else if caption_moves(b, i, out) {
        let at = table_end(b, i);
        order_from(b, at + 1, out.push(at) + positions(i, at))
    } else {
        order_from(b, i + 1, out.push(i))
    }
}

/// The positions of the blocks in printing order.
pub fn order(blocks: &[BlockShape]) -> (r: Vec<usize>)
    ensures
        r@.map_values(|x: usize| x as int) == order_from(blocks@, 0, seq![]),
{
    let n = blocks.len();
    let mut out: Vec<usize> = Vec::new();
    let mut i: usize = 0;
    proof {
        assert(out@.map_values(|x: usize| x as int) =~= Seq::<int>::empty());
    }
    while i < n
        invariant
            0 <= i <= n == blocks@.len(),
            forall|k: int| 0 <= k < out@.len() ==> #[trigger] out@[k] < n,
            order_from(blocks@, i as int, out@.map_values(|x: usize| x as int)) == order_from(
                blocks@,
                0,
                seq![],
            ),
        decreases n - i,
    {
        let ghost before = out@.map_values(|x: usize| x as int);
        let mut moved = false;
        if blocks[i] == BlockShape::Table {
            let at = if i + 1 < n && blocks[i + 1] == BlockShape::TableConfig {
                i + 2
            } else {
                i + 1
            };
            if at < n && blocks[at] == BlockShape::Caption(CaptionKind::Table) {
                let after_float = out.len() > 0 && is_float(blocks[out[out.len() - 1]]);
                if !after_float {
                    proof {
                        assert(caption_moves(blocks@, i as int, before));
                    }
                    out.push(at);
                    proof {
                        assert(out@.map_values(|x: usize| x as int) =~= before.push(at as int)
                            + positions(i as int, i as int));
                    }
                    let mut k = i;
                    while k < at
                        invariant
                            i <= k <= at < n,
                            forall|m: int| 0 <= m < out@.len() ==> #[trigger] out@[m] < n,
                            out@.map_values(|x: usize| x as int) == before.push(at as int) + positions(
                                i as int,
                                k as int,
                            ),
                        decreases at - k,
                    {
                        let ghost prev = out@.map_values(|x: usize| x as int);
                        out.push(k);
                        proof {
                            assert(out@.map_values(|x: usize| x as int) =~= prev.push(k as int));
                            assert(positions(i as int, k + 1) =~= positions(i as int, k as int).push(
                                k as int,
                            ));
                            assert(before.push(at as int) + positions(i as int, k + 1) =~= (before.push(
                                at as int,
                            ) + positions(i as int, k as int)).push(k as int));
                        }
                        k += 1;
                    }
                    i = at + 1;
                    moved = true;
                }
            }
        }
        if !moved {
            proof {
                assert(!caption_moves(blocks@, i as int, before));
            }
            out.push(i);
            proof {
                assert(out@.map_values(|x: usize| x as int) =~= before.push(i as int));
            }
            i += 1;
        }
    }
    out
}

/// Whether a block shape is a float.
fn is_float(b: BlockShape) -> (r: bool)
    ensures
        r == shape_is_float(b),
{
    match b {
        BlockShape::Table | BlockShape::TableConfig | BlockShape::Float => true,
        _ => false,
    }
}

/// Whether `out` holds the positions below `i`, each once.
pub open spec fn holds_below(out: Seq<int>, i: int) -> bool {
    &&& out.len() == i
    &&& forall|k: int| 0 <= k < out.len() ==> 0 <= #[trigger] out[k] < i
    &&& forall|j: int, k: int| 0 <= j < k < out.len() ==> out[j] != out[k]
}

proof fn lemma_order_holds(b: Seq<BlockShape>, i: int, out: Seq<int>)
    requires
        0 <= i <= b.len(),
        holds_below(out, i),
    ensures
        holds_below(order_from(b, i, out), b.len() as int),
    decreases b.len() - i,
{
    if i < b.len() {
        if caption_moves(b, i, out) {
            let at = table_end(b, i);
            let next = out.push(at) + positions(i, at);
            assert(holds_below(next, at + 1)) by {
                assert forall|j: int, k: int| 0 <= j < k < next.len() implies next[j] != next[k] by {
                    if k > out.len() && j == out.len() {
                        assert(next[k] == i + (k - out.len() - 1));
                    }
                }
            }
            lemma_order_holds(b, at + 1, next);
        } else {
            let next = out.push(i);
            lemma_order_holds(b, i + 1, next);
        }
    }
}

/// The printing order prints every block once: it is a permutation of
/// the positions.
pub proof fn lemma_order_permutes(b: Seq<BlockShape>)
    ensures
        holds_below(order_from(b, 0, seq![]), b.len() as int),
{
    lemma_order_holds(b, 0, seq![]);
}

} // verus!
