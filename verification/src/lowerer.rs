//! The state the lowering threads through a document: the node ids
//! handed out so far, the diagnostics met, and the counter prefixes and
//! admonition kinds in force.

use vstd::prelude::*;
use vstd::string::*;
use vstd::utf8::*;
use crate::attrs::Attrs;
use crate::diag::{diag_models, put, Code, Diagnostic, DiagnosticModel, Fix};
use crate::head::{attrs_text, attrs_text_spec, has_attr_colon, has_attr_colon_spec};
use crate::node::Meta;
use crate::out::{contains_lowered, contains_string, lower, lowered_set, string_set};
use crate::span::{FileId, NodeId, Span};
use crate::text::{owned, string_of};

verus! {

/// Parse options.
#[derive(Clone, Copy, Debug, Default, PartialEq, Eq, Structural)]
pub struct Options {
    /// The strict profile: `__x__` small caps and `~x~` subscript are
    /// off.
    pub strict: bool,
}

/// Feature switches read from the front matter.
#[derive(Clone, Copy, Debug, PartialEq, Eq, Structural)]
pub struct Features {
    pub paragraph_lead: bool,
    pub tasklist_partial: bool,
    pub inline_insert: bool,
}

/// The lowering state of one parse.
pub struct Lowerer {
    pub file: FileId,
    pub options: Options,
    pub features: Features,
    /// The next node id to hand out.
    pub next_id: u32,
    pub diagnostics: Vec<Diagnostic>,
    /// Counter prefixes: predeclared plus `declare.counters`.
    pub prefixes: Vec<String>,
    /// Admonition kinds: built-in plus `declare.admonitions`.
    pub admonitions: Vec<String>,
    /// Lowering the body of a `::: figure`: a free caption is the
    /// figure's.
    pub in_figure: bool,
    /// Captions from a generic `/// caption` block, whose kind the
    /// neighbouring float decides.
    pub generic_captions: Vec<NodeId>,
    /// Lowering the direct body of a `::: tabs`.
    pub in_tabs: bool,
    /// Set before the body of a `tabs` container, consumed by the body.
    pub next_body_is_tabs: bool,
    /// Lowering an inline fragment (a table cell, a column header, an
    /// attribute value): the lead promotion does not apply there.
    pub in_fragment: bool,
    /// Lowering the blocks of a list item: the lead sugar does not fire
    /// there.
    pub in_list_item: bool,
}

/// The message of a `deprecated` diagnostic.
pub open spec fn deprecated_message(spelling: Seq<u8>, canonical: Seq<u8>) -> Seq<u8> {
    "`".spec_bytes() + spelling + "` is deprecated, write `".spec_bytes() + canonical
        + "`".spec_bytes()
}

impl Lowerer {
    /// The state a parse starts from, with the counter prefixes and the
    /// admonition kinds it knows: no id handed out, no diagnostic, the
    /// lead promotion on and the other features off.
    pub fn new(file: FileId, options: Options, prefixes: Vec<String>, admonitions: Vec<String>) -> (r: Lowerer)
        ensures
            r.next_id == 0,
            r.file == file,
            r.options == options,
            r.features == (Features {
                paragraph_lead: true,
                tasklist_partial: false,
                inline_insert: false,
            }),
            r.diagnostics@.len() == 0,
            r.prefixes@ == prefixes@,
            r.admonitions@ == admonitions@,
            !r.in_figure && !r.in_tabs && !r.next_body_is_tabs && !r.in_fragment && !r.in_list_item,
            r.generic_captions@.len() == 0,
    {
        Lowerer {
            file,
            options,
            features: Features { paragraph_lead: true, tasklist_partial: false, inline_insert: false },
            next_id: 0,
            diagnostics: Vec::new(),
            prefixes,
            admonitions,
            in_figure: false,
            generic_captions: Vec::new(),
            in_tabs: false,
            next_body_is_tabs: false,
            in_fragment: false,
            in_list_item: false,
        }
    }

    /// The meta of the next node: the next id, dense and in document
    /// order (call before lowering the children), with `span`.
    pub fn meta(&mut self, span: Span) -> (r: Meta)
        requires
            old(self).next_id < u32::MAX,
        ensures
            r.id == NodeId(old(self).next_id),
            r.span == span,
            final(self).next_id == old(self).next_id + 1,
            final(self).diagnostics@ == old(self).diagnostics@,
            final(self).file == old(self).file,
            final(self).options == old(self).options,
            final(self).features == old(self).features,
            final(self).prefixes@ == old(self).prefixes@,
            final(self).admonitions@ == old(self).admonitions@,
            final(self).in_figure == old(self).in_figure,
            final(self).generic_captions@ == old(self).generic_captions@,
            final(self).in_tabs == old(self).in_tabs,
            final(self).next_body_is_tabs == old(self).next_body_is_tabs,
            final(self).in_fragment == old(self).in_fragment,
            final(self).in_list_item == old(self).in_list_item,
    {
        let id = NodeId(self.next_id);
        self.next_id = self.next_id + 1;
        Meta::new(id, span)
    }

    /// Records a diagnostic.
    pub fn diag(&mut self, code: Code, span: Span, message: String)
        ensures
            diag_models(final(self).diagnostics@) == diag_models(old(self).diagnostics@).push(
                DiagnosticModel { code, span, message: owned(message), fix: None },
            ),
            final(self).next_id == old(self).next_id,
    {
        let ghost before = diag_models(self.diagnostics@);
        self.diagnostics.push(Diagnostic::new(code, span, message));
        proof {
            assert(diag_models(self.diagnostics@) =~= before.push(
                DiagnosticModel { code, span, message: owned(message), fix: None },
            ));
        }
    }

    /// Records that `spelling` is deprecated in favour of `canonical`.
    pub fn deprecated(&mut self, span: Span, spelling: &str, canonical: &str)
        ensures
            diag_models(final(self).diagnostics@) == diag_models(old(self).diagnostics@).push(
                DiagnosticModel {
                    code: Code::Deprecated,
                    span,
                    message: deprecated_message(spelling.spec_bytes(), canonical.spec_bytes()),
                    fix: None,
                },
            ),
            final(self).next_id == old(self).next_id,
    {
        let message = deprecated_text(spelling, canonical);
        self.diag(Code::Deprecated, span, message);
    }

    /// Records that `spelling` is deprecated, with the text fix that
    /// writes `replacement` over `span`: for a spelling whose span is not
    /// a node's.
    pub fn deprecated_with_fix(&mut self, span: Span, spelling: &str, canonical: &str, replacement: String)
        ensures
            diag_models(final(self).diagnostics@) == diag_models(old(self).diagnostics@).push(
                DiagnosticModel {
                    code: Code::Deprecated,
                    span,
                    message: deprecated_message(spelling.spec_bytes(), canonical.spec_bytes()),
                    fix: Some((span, owned(replacement))),
                },
            ),
            final(self).next_id == old(self).next_id,
    {
        let ghost before = diag_models(self.diagnostics@);
        let message = deprecated_text(spelling, canonical);
        let ghost m = owned(message);
        self.diagnostics.push(
            Diagnostic { code: Code::Deprecated, span, message, fix: Some(Fix { span, replacement }) },
        );
        proof {
            assert(diag_models(self.diagnostics@) =~= before.push(
                DiagnosticModel {
                    code: Code::Deprecated,
                    span,
                    message: m,
                    fix: Some((span, owned(replacement))),
                },
            ));
        }
    }

    /// The deprecated `{: …}` attribute colon: a `deprecated` diagnostic
    /// on the brace at `span`, whose fix is the canonical text of the
    /// list; nothing when `value`, the inside of the braces, has no
    /// colon.
    pub fn attrs_colon(&mut self, value: &str, attrs: &Attrs, span: Span)
        ensures
            diag_models(final(self).diagnostics@) == if has_attr_colon_spec(value.spec_bytes()) {
                diag_models(old(self).diagnostics@).push(
                    DiagnosticModel {
                        code: Code::Deprecated,
                        span,
                        message: deprecated_message("{: …}".spec_bytes(), "{…}".spec_bytes()),
                        fix: Some((span, attrs_text_spec(attrs@))),
                    },
                )
            } else {
                diag_models(old(self).diagnostics@)
            },
            final(self).next_id == old(self).next_id,
    {
        if has_attr_colon(value) {
            self.deprecated_with_fix(span, "{: …}", "{…}", attrs_text(attrs));
        }
    }

    /// Whether `name` is a counter prefix, in any case.
    pub fn is_prefix(&self, name: &str) -> (r: bool)
        ensures
            r == lowered_set(self.prefixes@).contains(lower(name.spec_bytes())),
    {
        contains_lowered(&self.prefixes, name.as_bytes())
    }

    /// Whether `name` is an admonition kind.
    pub fn is_admonition(&self, name: &str) -> (r: bool)
        ensures
            r == string_set(self.admonitions@).contains(name.spec_bytes()),
    {
        contains_string(&self.admonitions, name.as_bytes())
    }
}

/// The message of a `deprecated` diagnostic, as a string.
fn deprecated_text(spelling: &str, canonical: &str) -> (r: String)
    ensures
        owned(r) == deprecated_message(spelling.spec_bytes(), canonical.spec_bytes()),
{
    let mut v: Vec<u8> = Vec::new();
    proof {
        assert(valid_utf8(v@)) by {
            reveal_with_fuel(valid_utf8, 1);
        }
    }
    put(&mut v, "`");
    put(&mut v, spelling);
    put(&mut v, "` is deprecated, write `");
    put(&mut v, canonical);
    put(&mut v, "`");
    string_of(v)
}

} // verus!
