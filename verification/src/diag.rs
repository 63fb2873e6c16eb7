//! Diagnostics: what the library reports about a document, where, and
//! the text fix that goes with it when there is one.

use vstd::prelude::*;
use vstd::string::*;
use vstd::utf8::*;
use crate::span::Span;
use crate::text::{owned, push_range};

verus! {

broadcast use vstd::utf8::encode_utf8_valid_utf8;

/// What a diagnostic reports.
#[derive(Clone, Copy, Debug, PartialEq, Eq, Hash, Structural)]
pub enum Code {
    /// A spelling the language keeps for compatibility.
    Deprecated,
    /// A reference that names nothing.
    RefUnresolved,
    /// A key that is both a label and a bibliography key.
    RefAmbiguous,
    /// A reference to the implicit id of a heading.
    RefImplicitId,
    /// A number asked of an anchor that has none.
    RefUnnumbered,
}

impl Code {
    /// The diagnostic's identifier, as reports and suppressions spell it.
    pub fn id(&self) -> (r: &'static str)
        ensures
            r@ == match *self {
                Code::Deprecated => "deprecated"@,
                Code::RefUnresolved => "ref-unresolved"@,
                Code::RefAmbiguous => "ref-ambiguous"@,
                Code::RefImplicitId => "ref-implicit-id"@,
                Code::RefUnnumbered => "ref-unnumbered"@,
            },
    {
        match self {
            Code::Deprecated => "deprecated",
            Code::RefUnresolved => "ref-unresolved",
            Code::RefAmbiguous => "ref-ambiguous",
            Code::RefImplicitId => "ref-implicit-id",
            Code::RefUnnumbered => "ref-unnumbered",
        }
    }
}

/// A text edit that fixes what a diagnostic reports: `span` replaced by
/// `replacement`.
#[derive(Clone, Debug, PartialEq, Eq)]
pub struct Fix {
    pub span: Span,
    pub replacement: String,
}

/// A finding about a document.
#[derive(Clone, Debug, PartialEq, Eq)]
pub struct Diagnostic {
    pub code: Code,
    pub span: Span,
    pub message: String,
    pub fix: Option<Fix>,
}

/// A diagnostic with its texts taken as bytes.
pub struct DiagnosticModel {
    pub code: Code,
    pub span: Span,
    pub message: Seq<u8>,
    pub fix: Option<(Span, Seq<u8>)>,
}

impl View for Diagnostic {
    type V = DiagnosticModel;

    open spec fn view(&self) -> DiagnosticModel {
        DiagnosticModel {
            code: self.code,
            span: self.span,
            message: owned(self.message),
            fix: match self.fix {
                Some(f) => Some((f.span, owned(f.replacement))),
                None => None,
            },
        }
    }
}

/// The models of a list of diagnostics.
pub open spec fn diag_models(v: Seq<Diagnostic>) -> Seq<DiagnosticModel> {
    v.map_values(|d: Diagnostic| d@)
}

impl Diagnostic {
    /// A diagnostic with no fix.
    pub fn new(code: Code, span: Span, message: String) -> (r: Diagnostic)
        ensures
            r@ == (DiagnosticModel { code, span, message: owned(message), fix: None }),
    {
        Diagnostic { code, span, message, fix: None }
    }
}

/// Appends the bytes of `s` to a text being built.
pub fn put(v: &mut Vec<u8>, s: &str)
    requires
        valid_utf8(old(v)@),
    ensures
        final(v)@ == old(v)@ + s.spec_bytes(),
        valid_utf8(final(v)@),
{
    let b = s.as_bytes();
    let ghost before = v@;
    push_range(v, b, 0, b.len());
    proof {
        assert(b@.subrange(0, b@.len() as int) =~= b@);
        assert(valid_utf8(encode_utf8(s@)));
        vstd::utf8::valid_utf8_concat(before, b@);
    }
}

} // verus!
