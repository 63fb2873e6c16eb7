//! What every reference refers to: the lookup of a key in the
//! registries of a document (its labels, its declared counter prefixes,
//! the inventories of other books, its glossary, its bibliography, the
//! labels of the other documents of the book), and the diagnostics that
//! go with the answer.

use vstd::prelude::*;
use vstd::string::*;
use vstd::utf8::*;
use crate::attrs::owned_opt;
use crate::diag::{diag_models, put, Code, Diagnostic, DiagnosticModel, Fix};
use crate::out::lower;
use crate::span::{NodeId, Span};
use crate::text::{find_byte, find_from, has_at, lemma_find_from, owned, push_range, range_eq,
    starts_at, string_of, COLON};

verus! {

broadcast use vstd::utf8::encode_utf8_valid_utf8, vstd::utf8::encode_utf8_decode_utf8;

// ---------------------------------------------------------------------------
// The registries
// ---------------------------------------------------------------------------

/// A label of the document: the key in lower case, the node it labels,
/// its counter prefix, whether it is a heading's implicit id, where it is
/// defined, its formatted number, and whether its host shows no number.
#[derive(Clone, Debug, PartialEq)]
pub struct Label {
    pub key: String,
    pub node: NodeId,
    pub prefix: Option<String>,
    pub implicit: bool,
    pub span: Span,
    pub number: Option<String>,
    pub unnumbered: bool,
}

/// An entry of another book's inventory.
#[derive(Clone, Debug, PartialEq)]
pub struct InventoryRef {
    pub key: String,
    pub label: String,
    pub page: Option<u32>,
}

/// The inventory of another book, under the alias the front matter
/// gives it.
#[derive(Clone, Debug, PartialEq)]
pub struct Inventory {
    pub alias: String,
    pub refs: Vec<InventoryRef>,
}

/// A label of another document of the book.
#[derive(Clone, Debug, PartialEq)]
pub struct BookLabel {
    pub key: String,
    pub prefix: Option<String>,
    pub number: Option<String>,
    pub title: Option<String>,
    /// Where it lives (`findings.md#fw:boot`).
    pub location: String,
}

/// What a key refers to.
#[derive(Clone, Debug, PartialEq)]
pub enum Resolution {
    /// A label or counter item of this document.
    Label { target: NodeId, prefix: Option<String>, number: Option<String> },
    /// A label of another document of the book; a local definition
    /// always wins over it.
    Sibling { label: String, location: String },
    Citation { key: String },
    Glossary { term: String },
    Doi { doi: String },
    External { alias: String, label: String, page: Option<u32> },
    /// A key present in two registries.
    Ambiguous,
    Unresolved,
}

/// A resolution with its texts taken as bytes.
pub enum ResolutionModel {
    Label { target: NodeId, prefix: Option<Seq<u8>>, number: Option<Seq<u8>> },
    Sibling { label: Seq<u8>, location: Seq<u8> },
    Citation { key: Seq<u8> },
    Glossary { term: Seq<u8> },
    Doi { doi: Seq<u8> },
    External { alias: Seq<u8>, label: Seq<u8>, page: Option<u32> },
    Ambiguous,
    Unresolved,
}

impl View for Resolution {
    type V = ResolutionModel;

    open spec fn view(&self) -> ResolutionModel {
        match *self {
            Resolution::Label { target, prefix, number } => ResolutionModel::Label {
                target,
                prefix: owned_opt(prefix),
                number: owned_opt(number),
            },
            Resolution::Sibling { label, location } => ResolutionModel::Sibling {
                label: owned(label),
                location: owned(location),
            },
            Resolution::Citation { key } => ResolutionModel::Citation { key: owned(key) },
            Resolution::Glossary { term } => ResolutionModel::Glossary { term: owned(term) },
            Resolution::Doi { doi } => ResolutionModel::Doi { doi: owned(doi) },
            Resolution::External { alias, label, page } => ResolutionModel::External {
                alias: owned(alias),
                label: owned(label),
                page,
            },
            Resolution::Ambiguous => ResolutionModel::Ambiguous,
            Resolution::Unresolved => ResolutionModel::Unresolved,
        }
    }
}

/// A reference and what it resolved to.
#[derive(Clone, Debug, PartialEq)]
pub struct RefResolution {
    pub node: NodeId,
    /// The key token (the whole node for an anchor link).
    pub span: Span,
    /// The key as written.
    pub key: String,
    pub resolution: Resolution,
}

/// A reference resolution with its texts taken as bytes.
pub struct RefResolutionModel {
    pub node: NodeId,
    pub span: Span,
    pub key: Seq<u8>,
    pub resolution: ResolutionModel,
}

impl View for RefResolution {
    type V = RefResolutionModel;

    open spec fn view(&self) -> RefResolutionModel {
        RefResolutionModel {
            node: self.node,
            span: self.span,
            key: owned(self.key),
            resolution: self.resolution@,
        }
    }
}

/// The models of a list of resolutions.
pub open spec fn ref_models(v: Seq<RefResolution>) -> Seq<RefResolutionModel> {
    v.map_values(|r: RefResolution| r@)
}

/// The registries a document resolves against, and what resolving found.
#[derive(Clone, Debug)]
pub struct Resolved {
    pub labels: Vec<Label>,
    /// Counter prefixes, in lower case.
    pub declared: Vec<String>,
    pub inventories: Vec<Inventory>,
    /// Glossary terms and their definitions.
    pub glossary: Vec<(String, String)>,
    /// Bibliography keys.
    pub bibliography: Vec<String>,
    /// Labels of the other documents of the book.
    pub book: Vec<BookLabel>,
    pub diagnostics: Vec<Diagnostic>,
    pub refs: Vec<RefResolution>,
}

// ---------------------------------------------------------------------------
// Lookups
// ---------------------------------------------------------------------------

/// The index of the first label from `i` on whose key is `k`.
pub open spec fn find_label(v: Seq<Label>, k: Seq<u8>, i: int) -> Option<int>
    decreases v.len() - i,
{
    if i < 0 || i >= v.len() {
        None
    } else if owned(v[i].key) == k {
        Some(i)
    } else {
        find_label(v, k, i + 1)
    }
}

/// The index of the first inventory from `i` on whose alias is `k`.
pub open spec fn find_inventory(v: Seq<Inventory>, k: Seq<u8>, i: int) -> Option<int>
    decreases v.len() - i,
{
    if i < 0 || i >= v.len() {
        None
    } else if owned(v[i].alias) == k {
        Some(i)
    } else {
        find_inventory(v, k, i + 1)
    }
}

/// The index of the first inventory entry from `i` on whose key is `k`.
pub open spec fn find_entry(v: Seq<InventoryRef>, k: Seq<u8>, i: int) -> Option<int>
    decreases v.len() - i,
{
    if i < 0 || i >= v.len() {
        None
    } else if owned(v[i].key) == k {
        Some(i)
    } else {
        find_entry(v, k, i + 1)
    }
}

/// The index of the first book label from `i` on whose key is `k`.
pub open spec fn find_book(v: Seq<BookLabel>, k: Seq<u8>, i: int) -> Option<int>
    decreases v.len() - i,
{
    if i < 0 || i >= v.len() {
        None
    } else if owned(v[i].key) == k {
        Some(i)
    } else {
        find_book(v, k, i + 1)
    }
}

/// Whether some string of `v` is `k`.
pub open spec fn has_string(v: Seq<String>, k: Seq<u8>) -> bool {
    exists|i: int| 0 <= i < v.len() && owned(#[trigger] v[i]) == k
}

/// Whether some term of the glossary is `k`.
pub open spec fn has_term(v: Seq<(String, String)>, k: Seq<u8>) -> bool {
    exists|i: int| 0 <= i < v.len() && owned(#[trigger] v[i].0) == k
}

/// Whether `a` is the bytes of `b`.
fn same(a: &String, b: &[u8]) -> (r: bool)
    ensures
        r == (owned(*a) == b@),
{
    let x = a.as_str().as_bytes();
    let r = range_eq(x, 0, x.len(), b);
    proof {
        assert(x@.subrange(0, x@.len() as int) =~= x@);
    }
    r
}

/// `find_label` from the start.
fn label_index(v: &Vec<Label>, k: &[u8]) -> (r: Option<usize>)
    ensures
        match r {
            Some(i) => find_label(v@, k@, 0) == Some(i as int),
            None => find_label(v@, k@, 0) is None,
        },
        r matches Some(i) ==> i < v@.len(),
{
    let mut i: usize = 0;
    while i < v.len()
        invariant
            0 <= i <= v@.len(),
            find_label(v@, k@, 0) == find_label(v@, k@, i as int),
        decreases v@.len() - i,
    {
        if same(&v[i].key, k) {
            return Some(i);
        }
        i += 1;
    }
    None
}

/// `find_inventory` from the start.
fn inventory_index(v: &Vec<Inventory>, k: &[u8]) -> (r: Option<usize>)
    ensures
        match r {
            Some(i) => find_inventory(v@, k@, 0) == Some(i as int),
            None => find_inventory(v@, k@, 0) is None,
        },
        r matches Some(i) ==> i < v@.len(),
{
    let mut i: usize = 0;
    while i < v.len()
        invariant
            0 <= i <= v@.len(),
            find_inventory(v@, k@, 0) == find_inventory(v@, k@, i as int),
        decreases v@.len() - i,
    {
        if same(&v[i].alias, k) {
            return Some(i);
        }
        i += 1;
    }
    None
}

/// `find_entry` from the start.
fn entry_index(v: &Vec<InventoryRef>, k: &[u8]) -> (r: Option<usize>)
    ensures
        match r {
            Some(i) => find_entry(v@, k@, 0) == Some(i as int),
            None => find_entry(v@, k@, 0) is None,
        },
        r matches Some(i) ==> i < v@.len(),
{
    let mut i: usize = 0;
    while i < v.len()
        invariant
            0 <= i <= v@.len(),
            find_entry(v@, k@, 0) == find_entry(v@, k@, i as int),
        decreases v@.len() - i,
    {
        if same(&v[i].key, k) {
            return Some(i);
        }
        i += 1;
    }
    None
}

/// `find_book` from the start.
fn book_index(v: &Vec<BookLabel>, k: &[u8]) -> (r: Option<usize>)
    ensures
        match r {
            Some(i) => find_book(v@, k@, 0) == Some(i as int),
            None => find_book(v@, k@, 0) is None,
        },
        r matches Some(i) ==> i < v@.len(),
{
    let mut i: usize = 0;
    while i < v.len()
        invariant
            0 <= i <= v@.len(),
            find_book(v@, k@, 0) == find_book(v@, k@, i as int),
        decreases v@.len() - i,
    {
        if same(&v[i].key, k) {
            return Some(i);
        }
        i += 1;
    }
    None
}

/// Whether some string of `v` is `k`.
fn contains_string(v: &Vec<String>, k: &[u8]) -> (r: bool)
    ensures
        r == has_string(v@, k@),
{
    let mut i: usize = 0;
    while i < v.len()
        invariant
            0 <= i <= v@.len(),
            forall|j: int| 0 <= j < i ==> owned(#[trigger] v@[j]) != k@,
        decreases v@.len() - i,
    {
        if same(&v[i], k) {
            return true;
        }
        i += 1;
    }
    false
}

/// Whether some glossary term is `k`.
fn contains_term(v: &Vec<(String, String)>, k: &[u8]) -> (r: bool)
    ensures
        r == has_term(v@, k@),
{
    let mut i: usize = 0;
    while i < v.len()
        invariant
            0 <= i <= v@.len(),
            forall|j: int| 0 <= j < i ==> owned(#[trigger] v@[j].0) != k@,
        decreases v@.len() - i,
    {
        if same(&v[i].0, k) {
            return true;
        }
        i += 1;
    }
    false
}


// ---------------------------------------------------------------------------
// Resolution
// ---------------------------------------------------------------------------

/// The head of a key: what comes before its first `:`.
pub open spec fn head_of(l: Seq<u8>) -> Option<Seq<u8>> {
    let c = find_from(l, 0, l.len() as int, COLON);
    if c < l.len() {
        Some(l.subrange(0, c))
    } else {
        None
    }
}

/// The document's own label for the lowered key `l`: a key with a head
/// names a label only when the head is a declared counter prefix.
pub open spec fn local_label(r: Resolved, l: Seq<u8>) -> Option<int> {
    match head_of(l) {
        Some(p) => if has_string(r.declared@, p) {
            find_label(r.labels@, l, 0)
        } else {
            None
        },
        None => find_label(r.labels@, l, 0),
    }
}

/// A reference to a label of the document.
pub open spec fn label_model(x: Label) -> ResolutionModel {
    ResolutionModel::Label { target: x.node, prefix: owned_opt(x.prefix), number: owned_opt(x.number) }
}

/// What a label of another document shows: its number, else its title,
/// else its key.
pub open spec fn sibling_text(b: BookLabel) -> Seq<u8> {
    match b.number {
        Some(n) => owned(n),
        None => match b.title {
            Some(t) => owned(t),
            None => owned(b.key),
        },
    }
}

/// A reference to a label of another document.
pub open spec fn sibling_model(b: BookLabel) -> ResolutionModel {
    ResolutionModel::Sibling { label: sibling_text(b), location: owned(b.location) }
}

/// What the reference-style `[text][id]` refers to: the labels alone,
/// the document's own before the book's.
pub open spec fn resolve_label_spec(r: Resolved, key: Seq<u8>) -> ResolutionModel {
    let l = lower(key);
    match local_label(r, l) {
        Some(i) => label_model(r.labels@[i]),
        None => match find_book(r.book@, l, 0) {
            Some(b) => sibling_model(r.book@[b]),
            None => ResolutionModel::Unresolved,
        },
    }
}

/// The message of a key that is both a label and a bibliography key.
pub open spec fn both_label_msg(key: Seq<u8>) -> Seq<u8> {
    "`".spec_bytes() + key + "` is both a label and a bibliography key".spec_bytes()
}

/// The message of a key that is both a label of another document and a
/// bibliography key.
pub open spec fn both_sibling_msg(key: Seq<u8>) -> Seq<u8> {
    "`".spec_bytes() + key + "` is both a label of another document and a bibliography key".spec_bytes()
}

/// What `@key` refers to, and the diagnostic the lookup raises. In
/// order: `alias:key` in the inventory of a declared alias; `doi:`; a
/// glossary term after `gls:`; then a label (under a declared prefix when
/// the key has a head) against the bibliography, a key in both being
/// ambiguous; then a label of another document, which never shadows a
/// local one and is as ambiguous with a bibliography key.
pub open spec fn resolve_one_spec(r: Resolved, key: Seq<u8>, span: Span) -> (
    ResolutionModel,
    Seq<DiagnosticModel>,
) {
    let l = lower(key);
    let c = find_from(l, 0, l.len() as int, COLON);
    let inv = if c < l.len() {
        find_inventory(r.inventories@, l.subrange(0, c), 0)
    } else {
        None
    };
    let d = "doi:".spec_bytes();
    let g = "gls:".spec_bytes();
    if inv is Some {
        let v = r.inventories@[inv->0];
        (
            match find_entry(v.refs@, l.subrange(c + 1, l.len() as int), 0) {
                Some(e) => ResolutionModel::External {
                    alias: l.subrange(0, c),
                    label: owned(v.refs@[e].label),
                    page: v.refs@[e].page,
                },
                None => ResolutionModel::Unresolved,
            },
            seq![],
        )
    } else if has_at(l, 0, d) {
        (ResolutionModel::Doi { doi: key.subrange(d.len() as int, key.len() as int) }, seq![])
    } else if has_at(l, 0, g) {
        let term = l.subrange(g.len() as int, l.len() as int);
        (
            if has_term(r.glossary@, term) {
                ResolutionModel::Glossary { term }
            } else {
                ResolutionModel::Unresolved
            },
            seq![],
        )
    } else {
        let citation = has_string(r.bibliography@, key);
        match local_label(r, l) {
            Some(i) => if citation {
                (
                    ResolutionModel::Ambiguous,
                    seq![
                        DiagnosticModel {
                            code: Code::RefAmbiguous,
                            span: r.labels@[i].span,
                            message: both_label_msg(key),
                            fix: None,
                        },
                    ],
                )
            } else {
                (label_model(r.labels@[i]), seq![])
            },
            None => match find_book(r.book@, l, 0) {
                Some(b) => if citation {
                    (
                        ResolutionModel::Ambiguous,
                        seq![
                            DiagnosticModel {
                                code: Code::RefAmbiguous,
                                span,
                                message: both_sibling_msg(key),
                                fix: None,
                            },
                        ],
                    )
                } else {
                    (sibling_model(r.book@[b]), seq![])
                },
                None => if citation {
                    (ResolutionModel::Citation { key }, seq![])
                } else {
                    (ResolutionModel::Unresolved, seq![])
                },
            },
        }
    }
}

/// Whether `@key` names a registry of its own before the labels: an
/// inventory of a declared alias, a DOI or a glossary term.
pub open spec fn own_registry(r: Resolved, key: Seq<u8>) -> bool {
    let l = lower(key);
    let c = find_from(l, 0, l.len() as int, COLON);
    ||| (c < l.len() && find_inventory(r.inventories@, l.subrange(0, c), 0) is Some)
    ||| has_at(l, 0, "doi:".spec_bytes())
    ||| has_at(l, 0, "gls:".spec_bytes())
}

/// A reference-style link refers to a label alone, the document's or the
/// book's: never to the bibliography, the glossary or an inventory.
pub proof fn lemma_reference_style_labels_only(r: Resolved, key: Seq<u8>)
    ensures
        ({
            let x = resolve_label_spec(r, key);
            x is Label || x is Sibling || x is Unresolved
        }),
{
}

/// A label of another document never shadows a local one, for `@key` as
/// for a reference-style link.
pub proof fn lemma_sibling_never_shadows(r: Resolved, key: Seq<u8>, span: Span)
    ensures
        resolve_label_spec(r, key) is Sibling ==> local_label(r, lower(key)) is None,
        resolve_one_spec(r, key, span).0 is Sibling ==> local_label(r, lower(key)) is None,
{
}

/// A key that is a label, of this document or of another, and a
/// bibliography key is ambiguous, with one diagnostic.
pub proof fn lemma_label_and_citation_are_ambiguous(r: Resolved, key: Seq<u8>, span: Span)
    requires
        !own_registry(r, key),
        has_string(r.bibliography@, key),
        local_label(r, lower(key)) is Some || find_book(r.book@, lower(key), 0) is Some,
    ensures
        resolve_one_spec(r, key, span).0 == ResolutionModel::Ambiguous,
        resolve_one_spec(r, key, span).1.len() == 1,
        resolve_one_spec(r, key, span).1[0].code == Code::RefAmbiguous,
{
}

/// The first book label from `j` on whose key is `k` is the one at `i`
/// when `i` has it and none between does.
proof fn lemma_find_book_at(v: Seq<BookLabel>, k: Seq<u8>, i: int, j: int)
    requires
        0 <= j <= i < v.len(),
        owned(v[i].key) == k,
        forall|m: int| j <= m < i ==> owned(#[trigger] v[m].key) != k,
    ensures
        find_book(v, k, j) == Some(i),
    decreases i - j,
{
    if j < i {
        lemma_find_book_at(v, k, i, j + 1);
    }
}

/// No label from `j` on has the key `k` when none of them has it.
proof fn lemma_find_label_none(v: Seq<Label>, k: Seq<u8>, j: int)
    requires
        0 <= j,
        forall|m: int| 0 <= m < v.len() ==> owned(#[trigger] v[m].key) != k,
    ensures
        find_label(v, k, j) is None,
    decreases v.len() - j,
{
    if j < v.len() {
        lemma_find_label_none(v, k, j + 1);
    }
}

/// A key that no label of the document has and that a label of another
/// document of the book has (the first such, `r.book[i]`) refers to that
/// label, at its location, showing its number when it has one, else its
/// title when it has one, else its key; for `@key` as for `[text][id]`,
/// when `@key` names no registry of its own and no bibliography entry.
pub proof fn lemma_sibling_shows_number_title_or_key(r: Resolved, key: Seq<u8>, span: Span, i: int)
    requires
        0 <= i < r.book@.len(),
        owned(r.book@[i].key) == lower(key),
        forall|j: int| 0 <= j < i ==> owned(#[trigger] r.book@[j].key) != lower(key),
        forall|j: int| 0 <= j < r.labels@.len() ==> owned(#[trigger] r.labels@[j].key) != lower(key),
    ensures
        resolve_label_spec(r, key) is Sibling,
        resolve_label_spec(r, key)->Sibling_location == owned(r.book@[i].location),
        r.book@[i].number is Some ==> resolve_label_spec(r, key)->Sibling_label == owned(
            r.book@[i].number->0,
        ),
        r.book@[i].number is None && r.book@[i].title is Some ==> resolve_label_spec(
            r,
            key,
        )->Sibling_label == owned(r.book@[i].title->0),
        r.book@[i].number is None && r.book@[i].title is None ==> resolve_label_spec(
            r,
            key,
        )->Sibling_label == lower(key),
        !own_registry(r, key) && !has_string(r.bibliography@, key) ==> resolve_one_spec(
            r,
            key,
            span,
        ).0 == resolve_label_spec(r, key),
{
    let l = lower(key);
    lemma_find_label_none(r.labels@, l, 0);
    lemma_find_book_at(r.book@, l, i, 0);
    assert(local_label(r, l) is None);
}

/// A copy of an optional string.
fn clone_opt(o: &Option<String>) -> (r: Option<String>)
    ensures
        owned_opt(r) == owned_opt(*o),
{
    match o {
        Some(s) => Some(s.clone()),
        None => None,
    }
}

/// The string of `b[a..e]`, which is valid UTF-8 cut at boundaries.
fn slice_string(b: &Vec<u8>, a: usize, e: usize) -> (r: String)
    requires
        a <= e <= b@.len(),
        valid_utf8(b@),
        crate::text::boundary(b@, a as int),
        crate::text::boundary(b@, e as int),
    ensures
        owned(r) == b@.subrange(a as int, e as int),
{
    let mut v: Vec<u8> = Vec::new();
    push_range(&mut v, b.as_slice(), a, e);
    proof {
        crate::text::lemma_slice_valid(b@, a as int, e as int);
    }
    string_of(v)
}

/// The document's own label for the lowered key `l`.
fn local_label_index(resolved: &Resolved, l: &Vec<u8>) -> (r: Option<usize>)
    ensures
        match r {
            Some(i) => local_label(*resolved, l@) == Some(i as int),
            None => local_label(*resolved, l@) is None,
        },
        r matches Some(i) ==> i < resolved.labels@.len(),
{
    let n = l.len();
    let c = find_byte(l.as_slice(), 0, n, COLON);
    if c < n {
        let mut head: Vec<u8> = Vec::new();
        push_range(&mut head, l.as_slice(), 0, c);
        if contains_string(&resolved.declared, head.as_slice()) {
            label_index(&resolved.labels, l.as_slice())
        } else {
            None
        }
    } else {
        label_index(&resolved.labels, l.as_slice())
    }
}

/// The resolution naming a label of the document.
fn label_resolution(x: &Label) -> (r: Resolution)
    ensures
        r@ == label_model(*x),
{
    Resolution::Label { target: x.node, prefix: clone_opt(&x.prefix), number: clone_opt(&x.number) }
}

/// The resolution naming a label of another document.
fn sibling_resolution(b: &BookLabel) -> (r: Resolution)
    ensures
        r@ == sibling_model(*b),
{
    let label = match &b.number {
        Some(n) => n.clone(),
        None => match &b.title {
            Some(t) => t.clone(),
            None => b.key.clone(),
        },
    };
    Resolution::Sibling { label, location: b.location.clone() }
}

/// The labels alone, the document's own before the book's: `[text][id]`
/// is a reference only where `id` is a label, so it never reaches the
/// bibliography, the glossary or an inventory, and a key it does not
/// find says nothing.
pub fn resolve_label(key: &str, resolved: &Resolved) -> (r: Resolution)
    ensures
        r@ == resolve_label_spec(*resolved, key.spec_bytes()),
{
    let l = crate::out::lower_bytes(key.as_bytes());
    match local_label_index(resolved, &l) {
        Some(i) => label_resolution(&resolved.labels[i]),
        None => match book_index(&resolved.book, l.as_slice()) {
            Some(b) => sibling_resolution(&resolved.book[b]),
            None => Resolution::Unresolved,
        },
    }
}

/// The registries of `a` and `b` are the same, and so are the
/// references found so far.
pub open spec fn same_registries(a: Resolved, b: Resolved) -> bool {
    &&& a.labels == b.labels
    &&& a.declared == b.declared
    &&& a.inventories == b.inventories
    &&& a.glossary == b.glossary
    &&& a.bibliography == b.bibliography
    &&& a.book == b.book
}

/// Resolution order: a declared alias's inventory, `doi:`, `gls:`, then a
/// label (under a declared prefix) against the bibliography, a key in
/// both being ambiguous; a label of another document stands in for a
/// missing local one, as ambiguous with a bibliography key as a local
/// label would be.
pub fn resolve_one(key: &str, span: Span, resolved: &mut Resolved) -> (r: Resolution)
    ensures
        same_registries(*final(resolved), *old(resolved)),
        final(resolved).refs == old(resolved).refs,
        r@ == resolve_one_spec(*old(resolved), key.spec_bytes(), span).0,
        diag_models(final(resolved).diagnostics@) == diag_models(old(resolved).diagnostics@)
            + resolve_one_spec(*old(resolved), key.spec_bytes(), span).1,
{
    let k = key.as_bytes();
    let l = crate::out::lower_bytes(k);
    let n = l.len();
    proof {
        crate::out::lemma_lower_valid(k@);
        crate::text::lemma_ascii_boundaries(l@);
        lemma_find_from(l@, 0, n as int, COLON);
    }
    let c = find_byte(l.as_slice(), 0, n, COLON);
    if c < n {
        let mut alias: Vec<u8> = Vec::new();
        push_range(&mut alias, l.as_slice(), 0, c);
        match inventory_index(&resolved.inventories, alias.as_slice()) {
            Some(ii) => {
                let mut rest: Vec<u8> = Vec::new();
                push_range(&mut rest, l.as_slice(), c + 1, n);
                let inv = &resolved.inventories[ii];
                proof {
                    assert(diag_models(resolved.diagnostics@) =~= diag_models(
                        old(resolved).diagnostics@,
                    ) + Seq::<DiagnosticModel>::empty());
                }
                return match entry_index(&inv.refs, rest.as_slice()) {
                    Some(e) => Resolution::External {
                        alias: slice_string(&l, 0, c),
                        label: inv.refs[e].label.clone(),
                        page: inv.refs[e].page,
                    },
                    None => Resolution::Unresolved,
                };
            },
            None => {},
        }
    }
    proof {
        assert(diag_models(resolved.diagnostics@) =~= diag_models(old(resolved).diagnostics@)
            + Seq::<DiagnosticModel>::empty());
    }
    let d = "doi:".as_bytes();
    if starts_at(l.as_slice(), 0, d) {
        proof {
            reveal_strlit("doi:");
            vstd::string::is_ascii_spec_bytes("doi:");
            assert(is_ascii("doi:"));
            assert("doi:".spec_bytes().len() == 4);
            assert("doi:".spec_bytes()[3] == COLON);
            assert(l@.subrange(0, 4)[3] == l@[3]);
            assert(l@[3] == COLON);
            assert(k@[3] == COLON);
            crate::text::lemma_after_ascii(k@, 4);
        }
        return Resolution::Doi { doi: crate::text::substring(key, d.len(), k.len()) };
    }
    let g = "gls:".as_bytes();
    if starts_at(l.as_slice(), 0, g) {
        proof {
            reveal_strlit("gls:");
            vstd::string::is_ascii_spec_bytes("gls:");
            assert(is_ascii("gls:"));
            assert("gls:".spec_bytes().len() == 4);
            assert("gls:".spec_bytes()[3] == COLON);
            assert(l@.subrange(0, 4)[3] == l@[3]);
            assert(l@[3] == COLON);
        }
        let mut term: Vec<u8> = Vec::new();
        push_range(&mut term, l.as_slice(), g.len(), n);
        if contains_term(&resolved.glossary, term.as_slice()) {
            return Resolution::Glossary { term: slice_string(&l, g.len(), n) };
        } else {
            return Resolution::Unresolved;
        }
    }
    let citation = contains_string(&resolved.bibliography, k);
    match local_label_index(resolved, &l) {
        Some(i) => {
            if citation {
                let mut m: Vec<u8> = Vec::new();
                put(&mut m, "`");
                put(&mut m, key);
                put(&mut m, "` is both a label and a bibliography key");
                let span = resolved.labels[i].span;
                let msg = string_of(m);
                resolved.diagnostics.push(Diagnostic::new(Code::RefAmbiguous, span, msg));
                proof {
                    assert(diag_models(resolved.diagnostics@) =~= diag_models(
                        old(resolved).diagnostics@,
                    ) + resolve_one_spec(*old(resolved), key.spec_bytes(), span).1);
                }
                Resolution::Ambiguous
            } else {
                label_resolution(&resolved.labels[i])
            }
        },
        None => match book_index(&resolved.book, l.as_slice()) {
            Some(b) => {
                if citation {
                    let mut m: Vec<u8> = Vec::new();
                    put(&mut m, "`");
                    put(&mut m, key);
                    put(&mut m, "` is both a label of another document and a bibliography key");
                    let msg = string_of(m);
                    resolved.diagnostics.push(Diagnostic::new(Code::RefAmbiguous, span, msg));
                    proof {
                        assert(diag_models(resolved.diagnostics@) =~= diag_models(
                            old(resolved).diagnostics@,
                        ) + resolve_one_spec(*old(resolved), key.spec_bytes(), span).1);
                    }
                    Resolution::Ambiguous
                } else {
                    sibling_resolution(&resolved.book[b])
                }
            },
            None => {
                if citation {
                    Resolution::Citation { key: String::from_str(key) }
                } else {
                    Resolution::Unresolved
                }
            },
        },
    }
}

// ---------------------------------------------------------------------------
// All the references of a document
// ---------------------------------------------------------------------------

/// One reference found in the tree, before it is resolved.
#[derive(Clone, Debug, PartialEq)]
pub struct Found {
    pub node: NodeId,
    /// The key token, for the diagnostic of an item of a reference.
    pub span: Span,
    /// The whole node, for a diagnostic about the spelling.
    pub node_span: Span,
    pub key: String,
    /// `@key` or `[](#key)`, which shows a number, as opposed to
    /// `[text](#key)`, which shows the author's text.
    pub numeric: bool,
    /// The reference-style `[text][id]`: its text, and where that text
    /// ends. `None` for every other spelling.
    pub reference_style: Option<(String, u32)>,
}

/// What a found reference resolves to: the labels alone for the
/// reference-style spelling, the whole lookup otherwise.
pub open spec fn step_resolution(r: Resolved, f: Found) -> ResolutionModel {
    match f.reference_style {
        Some(_) => resolve_label_spec(r, owned(f.key)),
        None => resolve_one_spec(r, owned(f.key), f.span).0,
    }
}

/// The message that deprecates `[text][key]`.
pub open spec fn deprecated_msg(text: Seq<u8>, key: Seq<u8>) -> Seq<u8> {
    "`[".spec_bytes() + text + "][".spec_bytes() + key + "]` is deprecated, write `[".spec_bytes()
        + text + "](#".spec_bytes() + key + ")`".spec_bytes()
}

/// The message of a reference that names nothing.
pub open spec fn unresolved_msg(key: Seq<u8>) -> Seq<u8> {
    "`@".spec_bytes() + key
        + "` does not resolve to a label, a citation key, a glossary term or an inventory".spec_bytes()
}

/// The message of a reference to a heading's implicit id.
pub open spec fn implicit_msg(key: Seq<u8>) -> Seq<u8> {
    "`".spec_bytes() + key
        + "` is the heading's implicit id, which changes with its title; give the heading `{#".spec_bytes()
        + key + "}`".spec_bytes()
}

/// The message of a number asked of an anchor that has none.
pub open spec fn unnumbered_msg(key: Seq<u8>) -> Seq<u8> {
    "`".spec_bytes() + key
        + "` is an anchor with no number; the reference shows its text. Write `[text](#".spec_bytes()
        + key + ")` for a textual reference".spec_bytes()
}

/// The deprecation of a reference-style link that refers, with the fix
/// that rewrites the node into the canonical `[text](#id)`.
pub open spec fn deprecated_diag(f: Found, text: Seq<u8>) -> DiagnosticModel {
    let key = owned(f.key);
    DiagnosticModel {
        code: Code::Deprecated,
        span: f.node_span,
        message: deprecated_msg(text, key),
        fix: Some((f.node_span, "[".spec_bytes() + text + "](#".spec_bytes() + key + ")".spec_bytes())),
    }
}

/// The diagnostics about a label a reference resolved to: an implicit
/// id, and a number asked of a host that has none.
pub open spec fn label_diags(r: Resolved, f: Found, res: ResolutionModel) -> Seq<DiagnosticModel> {
    let key = owned(f.key);
    match res {
        ResolutionModel::Label { target, .. } => match find_label(r.labels@, key, 0) {
            Some(i) => if r.labels@[i].node == target {
                (if r.labels@[i].implicit {
                    seq![
                        DiagnosticModel {
                            code: Code::RefImplicitId,
                            span: f.node_span,
                            message: implicit_msg(key),
                            fix: None,
                        },
                    ]
                } else {
                    seq![]
                }) + (if f.numeric && r.labels@[i].unnumbered {
                    seq![
                        DiagnosticModel {
                            code: Code::RefUnnumbered,
                            span: f.node_span,
                            message: unnumbered_msg(key),
                            fix: None,
                        },
                    ]
                } else {
                    seq![]
                })
            } else {
                seq![]
            },
            None => seq![],
        },
        _ => seq![],
    }
}

/// The diagnostics resolving a found reference raises, in order: the
/// lookup's own, the deprecation of a reference-style link that refers,
/// an unresolved reference (never for the reference-style spelling,
/// which is then literal text), and those about the label it names.
pub open spec fn step_diags(r: Resolved, f: Found) -> Seq<DiagnosticModel> {
    let key = owned(f.key);
    let res = step_resolution(r, f);
    let lookup = match f.reference_style {
        Some(_) => seq![],
        None => resolve_one_spec(r, key, f.span).1,
    };
    let deprecated = match f.reference_style {
        Some((text, _)) => if res is Label || res is Sibling {
            seq![deprecated_diag(f, owned(text))]
        } else {
            seq![]
        },
        None => seq![],
    };
    let unresolved = if res is Unresolved && f.reference_style is None {
        seq![
            DiagnosticModel {
                code: Code::RefUnresolved,
                span: f.span,
                message: unresolved_msg(key),
                fix: None,
            },
        ]
    } else {
        seq![]
    };
    lookup + deprecated + unresolved + label_diags(r, f, res)
}

/// The diagnostics of a list of found references, in order.
pub open spec fn all_diags(r: Resolved, fs: Seq<Found>) -> Seq<DiagnosticModel>
    decreases fs.len(),
{
    if fs.len() == 0 {
        seq![]
    } else {
        all_diags(r, fs.drop_last()) + step_diags(r, fs.last())
    }
}

/// The resolution of a found reference, as recorded.
pub open spec fn step_ref(r: Resolved, f: Found) -> RefResolutionModel {
    RefResolutionModel { node: f.node, span: f.span, key: owned(f.key), resolution: step_resolution(r, f) }
}

/// The resolutions of a list of found references, in order.
pub open spec fn all_refs(r: Resolved, fs: Seq<Found>) -> Seq<RefResolutionModel> {
    fs.map_values(|f: Found| step_ref(r, f))
}

/// The deprecation a reference-style link that refers raises.
pub open spec fn deprecation_diags(f: Found, refers: bool) -> Seq<DiagnosticModel> {
    match f.reference_style {
        Some((text, _)) => if refers {
            seq![deprecated_diag(f, owned(text))]
        } else {
            seq![]
        },
        None => seq![],
    }
}

/// Reports a reference-style link that refers as deprecated.
fn report_deprecation(f: &Found, refers: bool, resolved: &mut Resolved)
    ensures
        same_registries(*final(resolved), *old(resolved)),
        final(resolved).refs == old(resolved).refs,
        diag_models(final(resolved).diagnostics@) == diag_models(old(resolved).diagnostics@)
            + deprecation_diags(*f, refers),
{
    match &f.reference_style {
        Some((text, _)) => {
            if refers {
                let key = f.key.as_str();
                let ns = f.node_span;
                let mut r: Vec<u8> = Vec::new();
                put(&mut r, "[");
                put(&mut r, text.as_str());
                put(&mut r, "](#");
                put(&mut r, key);
                put(&mut r, ")");
                let fix = Some(Fix { span: ns, replacement: string_of(r) });
                let mut m: Vec<u8> = Vec::new();
                put(&mut m, "`[");
                put(&mut m, text.as_str());
                put(&mut m, "][");
                put(&mut m, key);
                put(&mut m, "]` is deprecated, write `[");
                put(&mut m, text.as_str());
                put(&mut m, "](#");
                put(&mut m, key);
                put(&mut m, ")`");
                let message = string_of(m);
                resolved.diagnostics.push(Diagnostic { code: Code::Deprecated, span: ns, message, fix });
                proof {
                    assert(diag_models(final(resolved).diagnostics@) =~= diag_models(
                        old(resolved).diagnostics@,
                    ) + deprecation_diags(*f, refers));
                }
            } else {
                proof {
                    assert(diag_models(resolved.diagnostics@) =~= diag_models(
                        old(resolved).diagnostics@,
                    ) + deprecation_diags(*f, refers));
                }
            }
        },
        None => {
            proof {
                assert(diag_models(resolved.diagnostics@) =~= diag_models(old(resolved).diagnostics@)
                    + deprecation_diags(*f, refers));
            }
        },
    }
}

/// The report of a reference that names nothing.
pub open spec fn unresolved_diags(f: Found, unresolved: bool) -> Seq<DiagnosticModel> {
    if unresolved && f.reference_style is None {
        seq![
            DiagnosticModel {
                code: Code::RefUnresolved,
                span: f.span,
                message: unresolved_msg(owned(f.key)),
                fix: None,
            },
        ]
    } else {
        seq![]
    }
}

/// Reports a reference that names nothing, unless it is the
/// reference-style spelling, which is then literal text.
fn report_unresolved(f: &Found, unresolved: bool, resolved: &mut Resolved)
    ensures
        same_registries(*final(resolved), *old(resolved)),
        final(resolved).refs == old(resolved).refs,
        diag_models(final(resolved).diagnostics@) == diag_models(old(resolved).diagnostics@)
            + unresolved_diags(*f, unresolved),
{
    if unresolved && f.reference_style.is_none() {
        let mut m: Vec<u8> = Vec::new();
        put(&mut m, "`@");
        put(&mut m, f.key.as_str());
        put(&mut m, "` does not resolve to a label, a citation key, a glossary term or an inventory");
        let message = string_of(m);
        resolved.diagnostics.push(Diagnostic::new(Code::RefUnresolved, f.span, message));
    }
    proof {
        assert(diag_models(final(resolved).diagnostics@) =~= diag_models(old(resolved).diagnostics@)
            + unresolved_diags(*f, unresolved));
    }
}

/// Reports what the label a reference resolved to calls for.
fn report_label(f: &Found, res: &Resolution, resolved: &mut Resolved)
    ensures
        same_registries(*final(resolved), *old(resolved)),
        final(resolved).refs == old(resolved).refs,
        diag_models(final(resolved).diagnostics@) == diag_models(old(resolved).diagnostics@)
            + label_diags(*old(resolved), *f, res@),
{
    let ghost r0 = *old(resolved);
    let key = f.key.as_str();
    match res {
        Resolution::Label { target, .. } => {
            match label_index(&resolved.labels, key.as_bytes()) {
                Some(i) => {
                    if resolved.labels[i].node.0 == target.0 {
                        let ghost d0 = diag_models(resolved.diagnostics@);
                        if resolved.labels[i].implicit {
                            let mut m: Vec<u8> = Vec::new();
                            put(&mut m, "`");
                            put(&mut m, key);
                            put(&mut m, "` is the heading's implicit id, which changes with its title; give the heading `{#");
                            put(&mut m, key);
                            put(&mut m, "}`");
                            let message = string_of(m);
                            resolved.diagnostics.push(Diagnostic::new(Code::RefImplicitId, f.node_span, message));
                        }
                        let ghost d1 = diag_models(resolved.diagnostics@);
                        if f.numeric && resolved.labels[i].unnumbered {
                            let mut m: Vec<u8> = Vec::new();
                            put(&mut m, "`");
                            put(&mut m, key);
                            put(&mut m, "` is an anchor with no number; the reference shows its text. Write `[text](#");
                            put(&mut m, key);
                            put(&mut m, ")` for a textual reference");
                            let message = string_of(m);
                            resolved.diagnostics.push(Diagnostic::new(Code::RefUnnumbered, f.node_span, message));
                        }
                        proof {
                            assert(diag_models(resolved.diagnostics@) =~= diag_models(
                                r0.diagnostics@,
                            ) + label_diags(r0, *f, res@));
                        }
                    } else {
                        proof {
                            assert(diag_models(resolved.diagnostics@) =~= diag_models(
                                r0.diagnostics@,
                            ) + label_diags(r0, *f, res@));
                        }
                    }
                },
                None => {
                    proof {
                        assert(diag_models(resolved.diagnostics@) =~= diag_models(r0.diagnostics@)
                            + label_diags(r0, *f, res@));
                    }
                },
            }
        },
        _ => {
            proof {
                assert(diag_models(resolved.diagnostics@) =~= diag_models(r0.diagnostics@)
                    + label_diags(r0, *f, res@));
            }
        },
    }
}

/// Resolves one found reference: records what it refers to and reports
/// what the lookup, the spelling and the label call for.
fn resolve_step(f: &Found, resolved: &mut Resolved)
    ensures
        same_registries(*final(resolved), *old(resolved)),
        ref_models(final(resolved).refs@) == ref_models(old(resolved).refs@).push(
            step_ref(*old(resolved), *f),
        ),
        diag_models(final(resolved).diagnostics@) == diag_models(old(resolved).diagnostics@)
            + step_diags(*old(resolved), *f),
{
    let ghost r0 = *old(resolved);
    let key = f.key.as_str();
    let resolution = match &f.reference_style {
        Some(_) => resolve_label(key, resolved),
        None => resolve_one(key, f.span, resolved),
    };
    let ghost d1 = diag_models(resolved.diagnostics@);
    let refers = match &resolution {
        Resolution::Label { .. } => true,
        Resolution::Sibling { .. } => true,
        _ => false,
    };
    report_deprecation(f, refers, resolved);
    let unresolved = match &resolution {
        Resolution::Unresolved => true,
        _ => false,
    };
    report_unresolved(f, unresolved, resolved);
    proof {
        assert(resolved.labels == r0.labels);
    }
    report_label(f, &resolution, resolved);
    let ghost refs0 = resolved.refs@;
    resolved.refs.push(RefResolution { node: f.node, span: f.span, key: f.key.clone(), resolution });
    proof {
        let res = step_resolution(r0, *f);
        assert(resolution@ == res);
        let lookup = match f.reference_style {
            Some(_) => Seq::<DiagnosticModel>::empty(),
            None => resolve_one_spec(r0, owned(f.key), f.span).1,
        };
        assert(d1 =~= diag_models(r0.diagnostics@) + lookup);
        assert(refers == (res is Label || res is Sibling));
        assert(unresolved == (res is Unresolved));
        assert(diag_models(resolved.diagnostics@) =~= diag_models(r0.diagnostics@) + step_diags(r0, *f));
        assert(ref_models(resolved.refs@) =~= ref_models(refs0).push(step_ref(r0, *f)));
    }
}

/// Resolves `found` in order: records what each refers to and reports
/// what the lookup, the spelling and the label call for.
pub fn resolve_all(found: Vec<Found>, resolved: &mut Resolved)
    ensures
        same_registries(*final(resolved), *old(resolved)),
        ref_models(final(resolved).refs@) == ref_models(old(resolved).refs@) + all_refs(
            *old(resolved),
            found@,
        ),
        diag_models(final(resolved).diagnostics@) == diag_models(old(resolved).diagnostics@)
            + all_diags(*old(resolved), found@),
{
    let ghost r0 = *old(resolved);
    let mut idx: usize = 0;
    proof {
        assert(found@.subrange(0, 0) =~= Seq::<Found>::empty());
        assert(ref_models(resolved.refs@) =~= ref_models(r0.refs@) + all_refs(r0, found@.subrange(0, 0)));
        assert(diag_models(resolved.diagnostics@) =~= diag_models(r0.diagnostics@) + all_diags(r0, found@.subrange(0, 0)));
    }
    while idx < found.len()
        invariant
            0 <= idx <= found@.len(),
            same_registries(*resolved, r0),
            ref_models(resolved.refs@) == ref_models(r0.refs@) + all_refs(
                r0,
                found@.subrange(0, idx as int),
            ),
            diag_models(resolved.diagnostics@) == diag_models(r0.diagnostics@) + all_diags(
                r0,
                found@.subrange(0, idx as int),
            ),
        decreases found@.len() - idx,
    {
        let ghost cur = *resolved;
        proof {
            let f = found@[idx as int];
            assert(step_ref(cur, f) == step_ref(r0, f));
            assert(step_diags(cur, f) == step_diags(r0, f));
        }
        resolve_step(&found[idx], resolved);
        proof {
            let pre = found@.subrange(0, idx as int);
            let next = found@.subrange(0, idx + 1);
            assert(next.drop_last() =~= pre);
            assert(next.last() == found@[idx as int]);
            assert(all_refs(r0, next) =~= all_refs(r0, pre).push(step_ref(r0, found@[idx as int])));
            assert(diag_models(resolved.diagnostics@) =~= diag_models(r0.diagnostics@) + all_diags(r0, next));
            assert(ref_models(resolved.refs@) =~= ref_models(r0.refs@) + all_refs(r0, next));
        }
        idx += 1;
    }
    proof {
        assert(found@.subrange(0, found@.len() as int) =~= found@);
    }
}

} // verus!
