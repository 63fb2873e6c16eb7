//! The node types of the TMark IR that the lexical layer builds and
//! prints: identity, targets, reference items, and the leaf nodes.

use vstd::prelude::*;
use vstd::string::*;
use crate::attrs::{owned_opt, Attrs};
use crate::text::owned;
use crate::span::{NodeId, Span, SubSpan};

verus! {

/// Identity and source span, present on every node. Equality of two
/// `Meta` is always true, which makes the equality of every node
/// structural; [`Meta::same`] compares identities.
#[derive(Copy, Clone, Debug, Default)]
pub struct Meta {
    pub id: NodeId,
    pub span: Span,
}

impl Meta {
    pub fn new(id: NodeId, span: Span) -> (r: Meta)
        ensures
            r.id == id,
            r.span == span,
    {
        Meta { id, span }
    }

    /// Identity comparison: same id and same span.
    pub fn same(&self, other: &Meta) -> (r: bool)
        ensures
            r == (self.id == other.id && self.span == other.span),
    {
        self.id.0 == other.id.0 && self.span.file.0 == other.span.file.0 && self.span.start
            == other.span.start && self.span.end == other.span.end
    }
}

impl PartialEq for Meta {
    fn eq(&self, other: &Meta) -> (r: bool) {
        true
    }
}

impl vstd::std_specs::cmp::PartialEqSpecImpl for Meta {
    open spec fn obeys_eq_spec() -> bool {
        true
    }

    open spec fn eq_spec(&self, other: &Meta) -> bool {
        true
    }
}

/// A `*[HTML]: HyperText Markup Language` definition.
#[derive(Clone, Debug, Default, PartialEq)]
pub struct AbbrDef {
    pub meta: Meta,
    pub key: String,
    pub expansion: String,
}

/// Where a link points.
#[derive(Clone, Debug, PartialEq, Eq)]
pub enum Target {
    /// An external URL.
    Url(String),
    /// `#id` in this document.
    Anchor(String),
    /// `[text][id]`, a reference-style link no definition matches.
    Reference(String),
    /// Another document, `[](other.md)`.
    Document(String),
}

/// One item of a reference or citation group (Pandoc's item grammar).
#[derive(Clone, Debug, Default, PartialEq, Eq)]
pub struct RefItem {
    /// Text before the key (`see`).
    pub prefix: Option<String>,
    /// `@[-key]`: the year alone.
    pub suppress_author: bool,
    /// `@[+key]`: the narrative citation.
    pub narrative: bool,
    /// The key as written, prefix included (`fig:boot`, `ein05`).
    pub key: String,
    /// Source range of `key` alone.
    pub key_span: SubSpan,
    /// Locator or suffix text (`p. 33`).
    pub suffix: Option<String>,
}

/// A reference item with every string taken as its bytes.
#[verifier::ext_equal]
pub struct RefItemModel {
    pub prefix: Option<Seq<u8>>,
    pub suppress_author: bool,
    pub narrative: bool,
    pub key: Seq<u8>,
    pub key_span: SubSpan,
    pub suffix: Option<Seq<u8>>,
}

impl View for RefItem {
    type V = RefItemModel;

    open spec fn view(&self) -> RefItemModel {
        RefItemModel {
            prefix: owned_opt(self.prefix),
            suppress_author: self.suppress_author,
            narrative: self.narrative,
            key: owned(self.key),
            key_span: self.key_span,
            suffix: owned_opt(self.suffix),
        }
    }
}

/// The models of a list of reference items.
pub open spec fn item_models(v: Seq<RefItem>) -> Seq<RefItemModel> {
    v.map_values(|r: RefItem| r@)
}

/// Task state of `- [ ]`, `- [x]` and `- [.]`.
#[derive(Copy, Clone, Debug, PartialEq, Eq, Hash, Structural)]
pub enum Task {
    Open,
    Done,
    Partial,
}

/// Numbering style of an ordered list.
#[derive(Copy, Clone, Debug, Default, PartialEq, Eq, Hash, Structural)]
pub enum ListStyle {
    #[default]
    Decimal,
    LowerAlpha,
    UpperAlpha,
    LowerRoman,
    UpperRoman,
    /// `#.`: numbered by the backend.
    Generic,
}

/// Layout hint of an aside.
#[derive(Copy, Clone, Debug, PartialEq, Eq, Hash, Structural)]
pub enum Side {
    Left,
    Right,
    Outer,
    Inner,
}

/// `Table:`, `Figure:`, `Listing:`.
#[derive(Copy, Clone, Debug, PartialEq, Eq, Hash, Structural)]
pub enum CaptionKind {
    Table,
    Figure,
    Listing,
}

/// The bytes of the caption word of a kind.
pub open spec fn caption_word(kind: CaptionKind) -> Seq<u8> {
    match kind {
        CaptionKind::Table => "Table".spec_bytes(),
        CaptionKind::Figure => "Figure".spec_bytes(),
        CaptionKind::Listing => "Listing".spec_bytes(),
    }
}

impl CaptionKind {
    /// The caption word as written (`Table:`).
    pub fn word(self) -> (r: &'static str)
        ensures
            r@ == match self {
                CaptionKind::Table => "Table"@,
                CaptionKind::Figure => "Figure"@,
                CaptionKind::Listing => "Listing"@,
            },
            r.spec_bytes() == caption_word(self),
    {
        match self {
            CaptionKind::Table => "Table",
            CaptionKind::Figure => "Figure",
            CaptionKind::Listing => "Listing",
        }
    }

    /// The conventional counter prefix of the float (`tbl:`, `fig:`,
    /// `lst:`).
    pub fn prefix(self) -> (r: &'static str)
        ensures
            r@ == match self {
                CaptionKind::Table => "tbl"@,
                CaptionKind::Figure => "fig"@,
                CaptionKind::Listing => "lst"@,
            },
    {
        match self {
            CaptionKind::Table => "tbl",
            CaptionKind::Figure => "fig",
            CaptionKind::Listing => "lst",
        }
    }
}

/// Source position of a caption line relative to its float: after is
/// canonical, before is accepted sugar.
#[derive(Copy, Clone, Debug, Default, PartialEq, Eq, Hash, Structural)]
pub enum CaptionPosition {
    Before,
    #[default]
    After,
}

/// `"x"` or `'x'`.
#[derive(Copy, Clone, Debug, Default, PartialEq, Eq, Hash, Structural)]
pub enum QuoteKind {
    #[default]
    Double,
    Single,
}

/// A run of text.
#[derive(Clone, Debug, Default, PartialEq)]
pub struct Str {
    pub meta: Meta,
    pub text: String,
}

/// Inter-word space.
#[derive(Clone, Debug, Default, PartialEq)]
pub struct Space {
    pub meta: Meta,
}

/// A newline inside a paragraph.
#[derive(Clone, Debug, Default, PartialEq)]
pub struct SoftBreak {
    pub meta: Meta,
}

/// A hard line break.
#[derive(Clone, Debug, Default, PartialEq)]
pub struct LineBreak {
    pub meta: Meta,
}

/// Inline code.
#[derive(Clone, Debug, Default, PartialEq)]
pub struct Code {
    pub meta: Meta,
    pub text: String,
    pub lang: Option<String>,
}

/// Inline math.
#[derive(Clone, Debug, Default, PartialEq)]
pub struct Math {
    pub meta: Meta,
    pub text: String,
    pub display: bool,
}

/// A reference or citation group.
#[derive(Clone, Debug, Default, PartialEq)]
pub struct Ref {
    pub meta: Meta,
    pub items: Vec<RefItem>,
    pub bracketed: bool,
}

/// `#(prefix:key)`.
#[derive(Clone, Debug, Default, PartialEq)]
pub struct CounterItem {
    pub meta: Meta,
    pub prefix: String,
    pub key: String,
    pub key_span: SubSpan,
}

/// `{keys}[ctrl+alt+s]`.
#[derive(Clone, Debug, Default, PartialEq)]
pub struct Keystroke {
    pub meta: Meta,
    pub keys: Vec<String>,
}

/// `{{ press.template }}`.
#[derive(Clone, Debug, Default, PartialEq)]
pub struct Var {
    pub meta: Meta,
    pub path: Vec<String>,
}

/// An abbreviation use.
#[derive(Clone, Debug, Default, PartialEq)]
pub struct Abbr {
    pub meta: Meta,
    pub text: String,
}

/// `<!-- text -->`.
#[derive(Clone, Debug, Default, PartialEq)]
pub struct Comment {
    pub meta: Meta,
    pub text: String,
}

/// Raw inline text for one backend.
#[derive(Clone, Debug, Default, PartialEq)]
pub struct RawInline {
    pub meta: Meta,
    pub format: String,
    pub text: String,
}

/// A listing.
#[derive(Clone, Debug, Default, PartialEq)]
pub struct CodeBlock {
    pub meta: Meta,
    pub text: String,
    pub lang: Option<String>,
    pub options: Attrs,
}

/// A thematic break.
#[derive(Clone, Debug, Default, PartialEq)]
pub struct HorizontalRule {
    pub meta: Meta,
}

/// Display math.
#[derive(Clone, Debug, Default, PartialEq)]
pub struct MathBlock {
    pub meta: Meta,
    pub text: String,
    pub attrs: Attrs,
}

/// Raw block text for one backend.
#[derive(Clone, Debug, Default, PartialEq)]
pub struct RawBlock {
    pub meta: Meta,
    pub format: String,
    pub text: String,
}

/// `{include}(path)`.
#[derive(Clone, Debug, Default, PartialEq)]
pub struct Include {
    pub meta: Meta,
    pub path: String,
    pub base: Option<String>,
}

} // verus!
