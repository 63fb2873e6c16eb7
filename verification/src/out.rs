//! The printer's output buffer, and what the MkDocs profile knows about
//! the document it prints.

use vstd::prelude::*;
use vstd::string::*;
use vstd::utf8::*;
use crate::text::{
    char_before, char_before_byte, find_byte, find_from, lemma_decode_concat, lemma_find_from,
    owned, push_range, range_eq, string_of, COLON,
};

verus! {

broadcast use vstd::utf8::encode_utf8_valid_utf8, vstd::utf8::encode_utf8_decode_utf8;

// ---------------------------------------------------------------------------
// Lookup
// ---------------------------------------------------------------------------

/// ASCII letters turned to lower case, every other byte kept.
pub open spec fn lower(b: Seq<u8>) -> Seq<u8> {
    b.map_values(|x: u8| if 0x41 <= x <= 0x5a { (x + 0x20) as u8 } else { x })
}

/// Lowering the ASCII letters of valid UTF-8 from `k` on keeps it valid.
proof fn lemma_lower_valid_from(b: Seq<u8>, k: int)
    requires
        0 <= k <= b.len(),
        valid_utf8(lower(b.subrange(0, k)) + b.subrange(k, b.len() as int)),
    ensures
        valid_utf8(lower(b)),
    decreases b.len() - k,
{
    let n = b.len() as int;
    if k == n {
        assert(b.subrange(0, n) =~= b);
        assert(lower(b) + b.subrange(n, n) =~= lower(b));
    } else {
        let pre = lower(b.subrange(0, k));
        let x = b[k];
        let rest = b.subrange(k + 1, n);
        assert(b.subrange(k, n) =~= seq![x] + rest);
        assert(pre + b.subrange(k, n) =~= pre + seq![x] + rest);
        let y: u8 = if 0x41 <= x <= 0x5a {
            (x + 0x20) as u8
        } else {
            x
        };
        assert(lower(b.subrange(0, k + 1)) =~= pre + seq![y]);
        if x < 0x80 {
            crate::fmt::lemma_swap_ascii(pre, x, rest, seq![y]);
        } else {
            assert(pre + seq![y] + rest =~= pre + seq![x] + rest);
        }
        assert(lower(b.subrange(0, k + 1)) + b.subrange(k + 1, n) =~= pre + seq![y] + rest);
        lemma_lower_valid_from(b, k + 1);
    }
}

/// Lowering the ASCII letters of valid UTF-8 keeps it valid.
pub proof fn lemma_lower_valid(b: Seq<u8>)
    requires
        valid_utf8(b),
    ensures
        valid_utf8(lower(b)),
{
    assert(lower(b.subrange(0, 0)) + b.subrange(0, b.len() as int) =~= b);
    lemma_lower_valid_from(b, 0);
}

/// The bytes of `b`, ASCII letters lowered.
pub fn lower_bytes(b: &[u8]) -> (r: Vec<u8>)
    ensures
        r@ == lower(b@),
{
    let mut v: Vec<u8> = Vec::new();
    let mut k: usize = 0;
    while k < b.len()
        invariant
            0 <= k <= b@.len(),
            v@ == lower(b@.subrange(0, k as int)),
        decreases b@.len() - k,
    {
        let x = b[k];
        let y = if x >= 0x41 && x <= 0x5a {
            x + 0x20
        } else {
            x
        };
        v.push(y);
        k += 1;
        assert(v@ =~= lower(b@.subrange(0, k as int)));
    }
    assert(b@.subrange(0, b@.len() as int) =~= b@);
    v
}

/// The strings of `v`, as bytes, lowered.
pub open spec fn lowered_set(v: Seq<String>) -> Set<Seq<u8>> {
    Set::new(|k: Seq<u8>| exists|i: int| 0 <= i < v.len() && lower(owned(#[trigger] v[i])) == k)
}

/// The strings of `v`, as bytes.
pub open spec fn string_set(v: Seq<String>) -> Set<Seq<u8>> {
    Set::new(|k: Seq<u8>| exists|i: int| 0 <= i < v.len() && owned(#[trigger] v[i]) == k)
}

/// What the MkDocs profile must know about the document to choose
/// between a label reference and a citation: a reference `@a:b` whose
/// head `a` is a declared counter prefix is a label; any other `@key` is
/// a bibliography key.
#[derive(Clone, Debug)]
pub struct Lookup {
    /// Heads that make `@head:key` a label: the counter prefixes and the
    /// cross-document aliases.
    heads: Vec<String>,
    /// Ids defined by an attribute list anywhere in the document.
    labels: Vec<String>,
    /// Footnote definition labels: `[^key]` with a definition is a
    /// footnote, so a citation of that key keeps its `@` spelling.
    footnotes: Vec<String>,
}

/// The lookup as sets of byte strings, the heads in lower case.
pub struct LookupModel {
    pub heads: Set<Seq<u8>>,
    pub labels: Set<Seq<u8>>,
    pub footnotes: Set<Seq<u8>>,
}

impl View for Lookup {
    type V = LookupModel;

    closed spec fn view(&self) -> LookupModel {
        LookupModel {
            heads: lowered_set(self.heads@),
            labels: string_set(self.labels@),
            footnotes: string_set(self.footnotes@),
        }
    }
}

/// The registry a bare `@key` resolves against.
#[derive(Copy, Clone, Debug, PartialEq, Eq, Structural)]
pub enum Registry {
    Label,
    Glossary,
    Bibliography,
}

/// The registry of `key` by the lookup rule: `gls:` names the glossary;
/// another head names a label when it is a declared head, the
/// bibliography otherwise; a key with no head is a label when the
/// document defines that id.
pub open spec fn registry_of(m: LookupModel, k: Seq<u8>) -> Registry {
    let c = find_from(k, 0, k.len() as int, COLON);
    if c < k.len() {
        if k.subrange(0, c) == "gls".spec_bytes() {
            Registry::Glossary
        } else if m.heads.contains(lower(k.subrange(0, c))) {
            Registry::Label
        } else {
            Registry::Bibliography
        }
    } else if m.labels.contains(k) {
        Registry::Label
    } else {
        Registry::Bibliography
    }
}

/// Whether `a` and `b` are equal once their ASCII letters are lowered.
fn eq_lower(a: &[u8], b: &[u8]) -> (r: bool)
    ensures
        r == (lower(a@) == lower(b@)),
{
    if a.len() != b.len() {
        proof {
            assert(lower(a@).len() != lower(b@).len());
        }
        return false;
    }
    let mut k: usize = 0;
    while k < a.len()
        invariant
            a@.len() == b@.len(),
            0 <= k <= a@.len(),
            forall|m: int| 0 <= m < k ==> lower(a@)[m] == lower(b@)[m],
        decreases a@.len() - k,
    {
        let x = if a[k] >= 0x41 && a[k] <= 0x5a {
            a[k] + 0x20
        } else {
            a[k]
        };
        let y = if b[k] >= 0x41 && b[k] <= 0x5a {
            b[k] + 0x20
        } else {
            b[k]
        };
        if x != y {
            proof {
                assert(lower(a@)[k as int] != lower(b@)[k as int]);
            }
            return false;
        }
        k += 1;
    }
    assert(lower(a@) =~= lower(b@));
    true
}

/// Whether some string of `v` is `s` once both are lowered.
pub(crate) fn contains_lowered(v: &Vec<String>, s: &[u8]) -> (r: bool)
    ensures
        r == lowered_set(v@).contains(lower(s@)),
{
    let mut i: usize = 0;
    while i < v.len()
        invariant
            0 <= i <= v@.len(),
            forall|j: int| 0 <= j < i ==> lower(owned(#[trigger] v@[j])) != lower(s@),
        decreases v@.len() - i,
    {
        if eq_lower(v[i].as_str().as_bytes(), s) {
            return true;
        }
        i += 1;
    }
    false
}

/// Whether some string of `v` is `s`.
pub(crate) fn contains_string(v: &Vec<String>, s: &[u8]) -> (r: bool)
    ensures
        r == string_set(v@).contains(s@),
{
    let mut i: usize = 0;
    while i < v.len()
        invariant
            0 <= i <= v@.len(),
            forall|j: int| 0 <= j < i ==> owned(#[trigger] v@[j]) != s@,
        decreases v@.len() - i,
    {
        let b = v[i].as_str().as_bytes();
        if range_eq(b, 0, b.len(), s) {
            proof {
                assert(b@.subrange(0, b@.len() as int) =~= b@);
            }
            return true;
        }
        proof {
            assert(b@.subrange(0, b@.len() as int) =~= b@);
        }
        i += 1;
    }
    false
}

impl Lookup {
    /// A lookup over the given heads (counter prefixes and cross-document
    /// aliases, compared in lower case), the ids the document defines and
    /// its footnote labels.
    pub fn new(heads: Vec<String>, labels: Vec<String>, footnotes: Vec<String>) -> (r: Lookup)
        ensures
            r@.heads == lowered_set(heads@),
            r@.labels == string_set(labels@),
            r@.footnotes == string_set(footnotes@),
    {
        Lookup { heads, labels, footnotes }
    }

    /// Whether `prefix` is a declared head, in any case.
    pub fn is_head(&self, prefix: &[u8]) -> (r: bool)
        ensures
            r == self@.heads.contains(lower(prefix@)),
    {
        contains_lowered(&self.heads, prefix)
    }

    /// Whether the document defines the id `key`.
    pub fn is_label(&self, key: &[u8]) -> (r: bool)
        ensures
            r == self@.labels.contains(key@),
    {
        contains_string(&self.labels, key)
    }

    /// Whether `key` labels a footnote definition.
    pub fn is_footnote(&self, key: &[u8]) -> (r: bool)
        ensures
            r == self@.footnotes.contains(key@),
    {
        contains_string(&self.footnotes, key)
    }

    /// The registry a bare `@key` resolves against, by the lookup rule
    /// applied to what the document declares.
    pub fn registry(&self, key: &[u8]) -> (r: Registry)
        ensures
            r == registry_of(self@, key@),
    {
        let c = find_byte(key, 0, key.len(), COLON);
        if c < key.len() {
            if range_eq(key, 0, c, "gls".as_bytes()) {
                Registry::Glossary
            } else {
                let mut head: Vec<u8> = Vec::new();
                push_range(&mut head, key, 0, c);
                if self.is_head(head.as_slice()) {
                    Registry::Label
                } else {
                    Registry::Bibliography
                }
            }
        } else if self.is_label(key) {
            Registry::Label
        } else {
            Registry::Bibliography
        }
    }
}

// ---------------------------------------------------------------------------
// Out
// ---------------------------------------------------------------------------

/// The text printed so far, and the lookup of the MkDocs profile when
/// the document is printed under it.
pub struct Out {
    text: Vec<u8>,
    last: Option<char>,
    lookup: Option<Lookup>,
}

/// An output buffer as values: its bytes, and the profile's lookup.
pub struct OutModel {
    pub text: Seq<u8>,
    pub lookup: Option<LookupModel>,
}

impl View for Out {
    type V = OutModel;

    closed spec fn view(&self) -> OutModel {
        OutModel {
            text: self.text@,
            lookup: match self.lookup {
                Some(l) => Some(l@),
                None => None,
            },
        }
    }
}

impl Out {
    /// The buffer holds UTF-8 text, and the character it ends with is
    /// remembered.
    pub closed spec fn wf(&self) -> bool {
        &&& valid_utf8(self.text@)
        &&& self.last == char_before(self.text@, self.text@.len() as int)
    }

    /// An empty buffer, under the MkDocs profile when a lookup is given.
    pub fn new(lookup: Option<Lookup>) -> (r: Out)
        ensures
            r.wf(),
            r@.text == Seq::<u8>::empty(),
            r@.lookup == match lookup {
                Some(l) => Some(l@),
                None => None::<LookupModel>,
            },
    {
        let r = Out { text: Vec::new(), last: None, lookup };
        proof {
            assert(valid_utf8(r.text@)) by {
                assert(r.text@.len() == 0);
            }
        }
        r
    }

    /// The printed text is valid UTF-8.
    pub proof fn lemma_valid(&self)
        requires
            self.wf(),
        ensures
            valid_utf8(self@.text),
    {
    }

    /// Appends `s`.
    pub fn push(&mut self, s: &str)
        requires
            old(self).wf(),
        ensures
            final(self).wf(),
            final(self)@.text == old(self)@.text + s.spec_bytes(),
            final(self)@.lookup == old(self)@.lookup,
    {
        let b = s.as_bytes();
        let ghost before = self.text@;
        push_range(&mut self.text, b, 0, b.len());
        proof {
            assert(b@.subrange(0, b@.len() as int) =~= b@);
            lemma_decode_concat(before, b@);
        }
        if b.len() > 0 {
            proof {
                crate::text::lemma_ascii_boundaries(b@);
                vstd::utf8::is_char_boundary_start_end_of_seq(b@);
                assert(self.text@.subrange(0, self.text@.len() as int) =~= self.text@);
                assert(b@.subrange(0, b@.len() as int) =~= b@);
            }
            self.last = char_before_byte(s, b.len());
        } else {
            proof {
                assert(self.text@ =~= before);
            }
        }
    }

    /// The last character printed, if any.
    pub fn last_char(&self) -> (r: Option<char>)
        requires
            self.wf(),
        ensures
            r == char_before(self@.text, self@.text.len() as int),
    {
        self.last
    }

    /// The lookup of the MkDocs profile, when the buffer prints under it.
    pub fn mkdocs(&self) -> (r: Option<&Lookup>)
        ensures
            match r {
                Some(l) => self@.lookup == Some(l@),
                None => self@.lookup is None,
            },
    {
        match &self.lookup {
            Some(l) => Some(l),
            None => None,
        }
    }

    /// The printed text.
    pub fn finish(self) -> (r: String)
        requires
            self.wf(),
        ensures
            owned(r) == self@.text,
    {
        string_of(self.text)
    }
}

} // verus!
