use tmark::block::is_caption;
use tmark::diag::Code;
use tmark::head::parse_attrs;
use tmark::lowerer::{Lowerer, Options};
use tmark::node::CaptionKind;
use tmark::source::{admonition_info_at, fence_body_at, Ctx, Payload, Point, Position};
use tmark::span::{FileId, Span};

fn at(start: usize, end: usize) -> Position {
    Position {
        start: Point { line: 1, column: 1, offset: start },
        end: Point { line: 1, column: 1, offset: end },
    }
}

fn lowerer() -> Lowerer {
    Lowerer::new(FileId(0), Options::default(), Vec::new(), Vec::new())
}

#[test]
fn a_node_slices_its_own_text() {
    let ctx = Ctx { text: "ab\ncdé" };
    assert_eq!(ctx.slice(Some(&at(3, 7))), "cdé");
    assert_eq!(ctx.slice(Some(&at(1, 1))), "");
    assert_eq!(ctx.slice(None), "");
}

#[test]
fn attribute_lists_start_after_the_first_brace_of_the_first_line() {
    let text = "x\n::: note {#a .b}\nbody {c}\n";
    let ctx = Ctx { text };
    let l = lowerer();
    let whole = at(2, text.len());
    assert_eq!(l.attrs_base(&ctx, Some(&whole)), Some(12));
    assert_eq!(&text[12..13], "#");
    // The brace of the second line is not the first line's.
    assert_eq!(l.attrs_base(&ctx, Some(&at(0, text.len()))), None);
    assert_eq!(l.attrs_base(&ctx, None), None);
}

#[test]
fn display_math_lists_follow_the_closing_fence() {
    let text = "$$\nx {y}\n$$ {#eq:a}";
    let ctx = Ctx { text };
    let l = lowerer();
    let base = l.attrs_base_last_line(&ctx, Some(&at(0, text.len())));
    assert_eq!(base, Some(13));
    assert_eq!(&text[13..17], "#eq:");
    assert_eq!(l.attrs_base_last_line(&ctx, Some(&at(0, 8))), Some(6));
    assert_eq!(l.attrs_base_last_line(&ctx, Some(&at(9, 11))), None);
}

#[test]
fn fence_bodies_are_found_where_the_node_spells_them() {
    let text = "intro\n```yaml table\na: 1\n```\n";
    let ctx = Ctx { text };
    let node = at(6, text.len());
    assert_eq!(fence_body_at(&ctx, Some(&node), "a: 1\n"), Some(20));
    assert_eq!(fence_body_at(&ctx, Some(&node), "intro"), None);
    assert_eq!(fence_body_at(&ctx, Some(&node), ""), None);
    assert_eq!(fence_body_at(&ctx, None, "a"), None);
}

#[test]
fn admonition_info_sits_after_the_marker_on_the_first_line() {
    let text = "!!! note \"Title\"\r\n    body note\n";
    let ctx = Ctx { text };
    let node = at(0, text.len());
    assert_eq!(admonition_info_at(&ctx, Some(&node), "!!!", "note \"Title\""), Some(4));
    assert_eq!(admonition_info_at(&ctx, Some(&node), "!!!", "body"), None);
    assert_eq!(admonition_info_at(&ctx, Some(&node), "!!!", ""), None);
    assert_eq!(admonition_info_at(&ctx, Some(&at(0, 0)), "!!!", "note"), None);
    // The carriage return of the line break is not part of the line.
    assert_eq!(admonition_info_at(&ctx, Some(&node), "!!!", "\"\r"), None);
}

#[test]
fn a_cell_spelled_once_in_the_payload_is_located() {
    let payload = Payload { text: "rows:\n  - [ab, cd, ab]\n", at: Some(100), span: Span::new(FileId(0), 90, 130) };
    assert_eq!(payload.locate("cd"), Some((115, 117)));
    assert_eq!(payload.locate("ab"), None);
    assert_eq!(payload.locate("zz"), None);
    assert_eq!(payload.locate(""), None);
    let dedented = Payload { at: None, ..payload };
    assert_eq!(dedented.locate("cd"), None);
}

#[test]
fn caption_words_need_a_blank_after_them() {
    assert_eq!(is_caption("Table: Results"), Some((CaptionKind::Table, 6)));
    assert_eq!(is_caption("Figure:\tA cat"), Some((CaptionKind::Figure, 7)));
    assert_eq!(is_caption("Listing: main"), Some((CaptionKind::Listing, 8)));
    assert_eq!(is_caption("Table:x"), None);
    assert_eq!(is_caption("Table:"), None);
    assert_eq!(is_caption("table: x"), None);
}

#[test]
fn the_attribute_colon_is_deprecated_with_the_canonical_list_as_fix() {
    let mut l = lowerer();
    let span = Span::new(FileId(0), 4, 12);
    let attrs = parse_attrs(": .cls #x").unwrap();
    l.attrs_colon(": .cls #x", &attrs, span);
    assert_eq!(l.diagnostics.len(), 1);
    let d = &l.diagnostics[0];
    assert_eq!(d.code, Code::Deprecated);
    assert_eq!(d.message, "`{: …}` is deprecated, write `{…}`");
    let fix = d.fix.as_ref().unwrap();
    assert_eq!(fix.span, span);
    assert_eq!(fix.replacement, "{#x .cls}");
    l.attrs_colon(".cls", &parse_attrs(".cls").unwrap(), span);
    assert_eq!(l.diagnostics.len(), 1);
}

#[test]
fn a_caption_as_written_reads_back() {
    for kind in [CaptionKind::Table, CaptionKind::Figure, CaptionKind::Listing] {
        let line = format!("{}: The caption", kind.word());
        assert_eq!(is_caption(&line), Some((kind, kind.word().len() + 1)));
        let tabbed = format!("{}:\tx", kind.word());
        assert_eq!(is_caption(&tabbed), Some((kind, kind.word().len() + 1)));
    }
}
