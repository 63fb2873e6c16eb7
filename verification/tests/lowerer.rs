use tmark::diag::Code;
use tmark::lowerer::{Lowerer, Options};
use tmark::span::{FileId, NodeId, Span};

fn lowerer() -> Lowerer {
    Lowerer::new(
        FileId(3),
        Options::default(),
        vec!["fig".to_string(), "Sec".to_string()],
        vec!["note".to_string(), "warning".to_string()],
    )
}

#[test]
fn node_ids_are_dense_in_document_order() {
    let mut l = lowerer();
    let span = Span::new(FileId(3), 0, 4);
    let ids: Vec<NodeId> = (0..3).map(|_| l.meta(span).id).collect();
    assert_eq!(ids, vec![NodeId(0), NodeId(1), NodeId(2)]);
    assert_eq!(l.meta(span).span, span);
    assert_eq!(l.next_id, 4);
}

#[test]
fn a_parse_starts_with_the_lead_promotion_on() {
    let l = lowerer();
    assert!(l.features.paragraph_lead);
    assert!(!l.features.tasklist_partial);
    assert!(!l.features.inline_insert);
    assert!(l.diagnostics.is_empty());
    assert!(!l.options.strict);
}

#[test]
fn deprecated_spellings_are_reported() {
    let mut l = lowerer();
    let span = Span::new(FileId(3), 2, 9);
    l.deprecated(span, "{: .x}", "{.x}");
    assert_eq!(l.diagnostics.len(), 1);
    assert_eq!(l.diagnostics[0].code, Code::Deprecated);
    assert_eq!(l.diagnostics[0].message, "`{: .x}` is deprecated, write `{.x}`");
    assert!(l.diagnostics[0].fix.is_none());
    l.deprecated_with_fix(span, "a", "b", "{.x}".to_string());
    let fix = l.diagnostics[1].fix.as_ref().unwrap();
    assert_eq!(fix.span, span);
    assert_eq!(fix.replacement, "{.x}");
    l.diag(Code::RefUnresolved, span, "nothing here".to_string());
    assert_eq!(l.diagnostics[2].message, "nothing here");
    assert_eq!(l.diagnostics[2].code, Code::RefUnresolved);
}

#[test]
fn prefixes_in_any_case_admonitions_exactly() {
    let l = lowerer();
    assert!(l.is_prefix("FIG"));
    assert!(l.is_prefix("sec"));
    assert!(!l.is_prefix("tbl"));
    assert!(l.is_admonition("note"));
    assert!(!l.is_admonition("Note"));
    assert!(!l.is_admonition("tip"));
}
