use tmark::diag::Code;
use tmark::refs::{
    resolve_all, resolve_label, resolve_one, BookLabel, Found, Inventory, InventoryRef, Label,
    Resolution, Resolved,
};
use tmark::span::{FileId, NodeId, Span};

fn span(start: u32, end: u32) -> Span {
    Span::new(FileId(0), start, end)
}

fn label(key: &str, node: u32, prefix: Option<&str>) -> Label {
    Label {
        key: key.to_string(),
        node: NodeId(node),
        prefix: prefix.map(str::to_string),
        implicit: false,
        span: span(node, node + 1),
        number: None,
        unnumbered: false,
    }
}

fn registries() -> Resolved {
    Resolved {
        labels: vec![
            label("sec:intro", 1, Some("sec")),
            label("stock", 2, None),
            label("claim", 3, None),
        ],
        declared: vec!["sec".to_string(), "fw".to_string()],
        inventories: vec![Inventory {
            alias: "fwrev".to_string(),
            refs: vec![InventoryRef {
                key: "fw:x".to_string(),
                label: "FW-10".to_string(),
                page: Some(14),
            }],
        }],
        glossary: vec![("solid".to_string(), "Five principles".to_string())],
        bibliography: vec!["ein05".to_string(), "stock".to_string()],
        book: vec![BookLabel {
            key: "fw:boot".to_string(),
            prefix: Some("fw".to_string()),
            number: Some("FW-10".to_string()),
            title: Some("Boot loop".to_string()),
            location: "findings.md#fw:boot".to_string(),
        }],
        diagnostics: Vec::new(),
        refs: Vec::new(),
    }
}

fn found(key: &str, numeric: bool, reference_style: Option<&str>) -> Found {
    Found {
        node: NodeId(9),
        span: span(20, 30),
        node_span: span(10, 40),
        key: key.to_string(),
        numeric,
        reference_style: reference_style.map(|t| (t.to_string(), 25)),
    }
}

fn codes(r: &Resolved) -> Vec<&'static str> {
    let mut v: Vec<&str> = r.diagnostics.iter().map(|d| d.code.id()).collect();
    v.sort();
    v
}

#[test]
fn labels_resolve_by_host_and_prefix() {
    let mut r = registries();
    let refs = vec![
        found("sec:intro", true, None),
        found("Sec:intro", true, None),
        found("sec:intro", false, None),
        found("sec:nope", true, None),
    ];
    resolve_all(refs, &mut r);
    assert_eq!(codes(&r), vec!["ref-unresolved"]);
    assert_eq!(r.refs.len(), 4);
    assert!(
        matches!(&r.refs[0].resolution, Resolution::Label { prefix: Some(p), number: None, target } if p == "sec" && *target == NodeId(1))
    );
    assert!(matches!(&r.refs[1].resolution, Resolution::Label { .. }));
    assert!(matches!(&r.refs[2].resolution, Resolution::Label { .. }));
    assert_eq!(r.refs[3].resolution, Resolution::Unresolved);
    assert_eq!(r.refs[3].key, "sec:nope");
    assert_eq!(r.diagnostics[0].span, span(20, 30));
}

#[test]
fn citations_glossary_doi_and_ambiguity() {
    let mut r = registries();
    let refs = vec![
        found("ein05", true, None),
        found("gls:solid", true, None),
        found("gls:nope", true, None),
        found("doi:10.1/x", true, None),
        found("stock", true, None),
    ];
    resolve_all(refs, &mut r);
    assert_eq!(codes(&r), vec!["ref-ambiguous", "ref-unresolved"]);
    assert!(matches!(&r.refs[0].resolution, Resolution::Citation { key } if key == "ein05"));
    assert!(matches!(&r.refs[1].resolution, Resolution::Glossary { term } if term == "solid"));
    assert_eq!(r.refs[2].resolution, Resolution::Unresolved);
    assert!(matches!(&r.refs[3].resolution, Resolution::Doi { doi } if doi == "10.1/x"));
    assert_eq!(r.refs[4].resolution, Resolution::Ambiguous);
}

#[test]
fn the_bibliography_is_never_a_reference_style_target() {
    let mut r = registries();
    resolve_all(vec![found("ein05", false, Some("none"))], &mut r);
    assert_eq!(r.refs[0].resolution, Resolution::Unresolved);
    assert!(r.diagnostics.is_empty());
}

#[test]
fn citations_glossary_doi_inventories_and_ambiguity() {
    let mut r = registries();
    let refs = vec![
        found("ein05", true, None),
        found("gls:solid", true, None),
        found("gls:nope", true, None),
        found("doi:10.1/x", true, None),
        found("stock", true, None),
        found("fwrev:fw:x", true, None),
        found("fwrev:fw:y", true, None),
        found("DOI:10.1/X", true, None),
    ];
    resolve_all(refs, &mut r);
    assert_eq!(
        codes(&r),
        vec!["ref-ambiguous", "ref-unresolved", "ref-unresolved"]
    );
    assert!(matches!(&r.refs[0].resolution, Resolution::Citation { key } if key == "ein05"));
    assert!(matches!(&r.refs[1].resolution, Resolution::Glossary { term } if term == "solid"));
    assert_eq!(r.refs[2].resolution, Resolution::Unresolved);
    assert!(matches!(&r.refs[3].resolution, Resolution::Doi { doi } if doi == "10.1/x"));
    assert_eq!(r.refs[4].resolution, Resolution::Ambiguous);
    assert!(
        matches!(&r.refs[5].resolution, Resolution::External { alias, label, page: Some(14) } if alias == "fwrev" && label == "FW-10")
    );
    assert_eq!(r.refs[6].resolution, Resolution::Unresolved);
    assert!(matches!(&r.refs[7].resolution, Resolution::Doi { doi } if doi == "10.1/X"));
    let ambiguous = r
        .diagnostics
        .iter()
        .find(|d| d.code == Code::RefAmbiguous)
        .unwrap();
    assert_eq!(ambiguous.span, span(2, 3), "reported at the label");
    assert_eq!(
        ambiguous.message,
        "`stock` is both a label and a bibliography key"
    );
}

#[test]
fn reference_style_links_resolve_against_the_labels_alone() {
    let mut r = registries();
    let refs = vec![
        found("claim", false, Some("the claim")),
        found("fw:boot", false, Some("the finding")),
        found("knuth:1984", false, Some("a review")),
        found("nope", false, Some("none")),
    ];
    resolve_all(refs, &mut r);
    assert_eq!(r.refs.len(), 4);
    assert!(matches!(&r.refs[0].resolution, Resolution::Label { .. }));
    assert!(
        matches!(&r.refs[1].resolution, Resolution::Sibling { label, location } if label == "FW-10" && location == "findings.md#fw:boot")
    );
    assert_eq!(r.refs[2].resolution, Resolution::Unresolved);
    assert_eq!(r.refs[3].resolution, Resolution::Unresolved);
    assert_eq!(codes(&r), ["deprecated", "deprecated"]);
    let fixes: Vec<&str> = r
        .diagnostics
        .iter()
        .filter_map(|d| d.fix.as_ref())
        .map(|f| f.replacement.as_str())
        .collect();
    assert_eq!(fixes, ["[the claim](#claim)", "[the finding](#fw:boot)"]);
    assert_eq!(
        r.diagnostics[0].message,
        "`[the claim][claim]` is deprecated, write `[the claim](#claim)`"
    );
}

#[test]
fn a_sibling_never_shadows_a_local_label() {
    let mut r = registries();
    r.labels.push(label("fw:boot", 7, Some("fw")));
    assert!(
        matches!(resolve_label("fw:boot", &r), Resolution::Label { target, .. } if target == NodeId(7))
    );
    // A sibling label that is also a bibliography key is ambiguous.
    let mut r = registries();
    r.bibliography.push("fw:boot".to_string());
    assert_eq!(resolve_one("fw:boot", span(1, 2), &mut r), Resolution::Ambiguous);
    assert_eq!(
        r.diagnostics[0].message,
        "`fw:boot` is both a label of another document and a bibliography key"
    );
    assert_eq!(r.diagnostics[0].span, span(1, 2));
    // Undeclared heads name no local label.
    let mut r = registries();
    r.labels.push(label("tbl:x", 8, Some("tbl")));
    assert_eq!(resolve_one("tbl:x", span(1, 2), &mut r), Resolution::Unresolved);
    assert!(r.diagnostics.is_empty());
}

#[test]
fn implicit_ids_and_unnumbered_anchors_are_reported() {
    let mut r = registries();
    r.labels[0].implicit = true;
    r.labels[2].unnumbered = true;
    let refs = vec![
        found("sec:intro", true, None),
        found("claim", true, None),
        found("claim", false, None),
    ];
    resolve_all(refs, &mut r);
    assert_eq!(codes(&r), vec!["ref-implicit-id", "ref-unnumbered"]);
    assert_eq!(r.diagnostics[0].span, span(10, 40));
    assert_eq!(
        r.diagnostics[1].message,
        "`claim` is an anchor with no number; the reference shows its text. Write `[text](#claim)` for a textual reference"
    );
}
