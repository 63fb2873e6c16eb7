use tmark::attrs::Attrs;
use tmark::fmt::{
    blocks_sigil, code_span, destination, icon_shortcode, Piece, is_bare_key, is_html_tag, progress_head,
    reference, side_name,
};
use tmark::node::{RefItem, Side};
use tmark::out::Out;

fn span(text: &str, in_cell: bool) -> String {
    let mut out = Out::new(None);
    code_span(&mut out, text, in_cell);
    out.finish()
}

#[test]
fn side_names() {
    assert_eq!(side_name(Side::Left), "left");
    assert_eq!(side_name(Side::Right), "right");
    assert_eq!(side_name(Side::Outer), "outer");
    assert_eq!(side_name(Side::Inner), "inner");
}

#[test]
fn the_sigil_guard() {
    assert!(blocks_sigil('a'));
    assert!(blocks_sigil('é'), "word characters in the Unicode sense");
    assert!(blocks_sigil('7'));
    for c in ['_', '@', '/', ':', '.', '-'] {
        assert!(blocks_sigil(c), "{c}");
    }
    for c in [' ', '(', '§', '«', ','] {
        assert!(!blocks_sigil(c), "{c}");
    }
}

#[test]
fn html_tags() {
    assert!(is_html_tag("<b>"));
    assert!(is_html_tag("</b>"));
    assert!(is_html_tag("</b  >"));
    assert!(is_html_tag("<a href=\"x\">"));
    assert!(is_html_tag("<br/>"));
    assert!(is_html_tag("<br />"));
    assert!(is_html_tag("<!-- c -->"));
    assert!(is_html_tag("<?php echo 1 ?>"));
    assert!(is_html_tag("<!DOCTYPE html>"));
    assert!(!is_html_tag("</b x>"));
    assert!(!is_html_tag("<!-- a -- b -->"));
    assert!(!is_html_tag("<1a>"));
    assert!(!is_html_tag("<>"));
    assert!(!is_html_tag("<a<b>"));
    assert!(!is_html_tag("<a>b>"));
    assert!(!is_html_tag("x"));
    assert!(!is_html_tag("<b> x"));
}

#[test]
fn empty_comments_are_html() {
    assert!(is_html_tag("<!-->"));
    assert!(is_html_tag("<!--->"));
    assert!(is_html_tag("<!---->"));
}

#[test]
fn destinations() {
    assert_eq!(destination("http://a.b/c"), "http://a.b/c");
    assert_eq!(destination("a(b)c"), "a(b)c");
    assert_eq!(destination("a b"), "<a b>");
    assert_eq!(destination("a(b"), "<a(b>");
    assert_eq!(destination("a)b("), "<a)b(>");
    assert_eq!(destination(""), "<>");
    assert_eq!(destination("x<y"), "<x\\<y>");
    assert_eq!(destination("a\\b c>"), "<a\\\\b c\\>>");
    assert_eq!(destination("a\nb"), "<a%0Ab>");
    assert_eq!(destination("a\u{a0}b"), "<a\u{a0}b>");
    assert_eq!(destination("a\u{85}b"), "<a\u{85}b>");
    assert_eq!(destination("é(1)"), "é(1)");
}

#[test]
fn code_spans() {
    assert_eq!(span("a", false), "`a`");
    assert_eq!(span("a`b", false), "``a`b``");
    assert_eq!(span("a``b`", false), "``` a``b` ```");
    assert_eq!(span("`a", false), "`` `a ``");
    assert_eq!(span(" a ", false), "`  a  `");
    assert_eq!(span("  ", false), "`  `");
    assert_eq!(span("a|b", true), "`a\\|b`");
    assert_eq!(span("a|b", false), "`a|b`");
    assert_eq!(span("", false), "``");
}

#[test]
fn icon_shortcodes() {
    let mut attrs = Attrs::default();
    attrs.classes.push("icon".to_string());
    attrs.kv.push(("media".to_string(), "web".to_string()));
    assert_eq!(icon_shortcode(&[Piece::Text(":material-cog:")], &attrs), Some(":material-cog:"));
    assert_eq!(icon_shortcode(&[Piece::Text(":simple-github:")], &attrs), Some(":simple-github:"));
    assert_eq!(icon_shortcode(&[Piece::Text(":smile:")], &attrs), None);
    assert_eq!(icon_shortcode(&[Piece::Text(":material-Cog:")], &attrs), None);
    assert_eq!(icon_shortcode(&[Piece::Text("material-cog")], &attrs), None);
    let mut extra = attrs.clone();
    extra.classes.push("big".to_string());
    assert_eq!(icon_shortcode(&[Piece::Text(":material-cog:")], &extra), None);
    let mut with_id = attrs.clone();
    with_id.id = Some("x".to_string());
    assert_eq!(icon_shortcode(&[Piece::Text(":material-cog:")], &with_id), None);
    assert_eq!(icon_shortcode(&[Piece::Text(":material-cog:")], &Attrs::default()), None);
    assert_eq!(icon_shortcode(&[Piece::Text(":material-cog:"), Piece::Other], &attrs), None);
    assert_eq!(
        icon_shortcode(&[Piece::Text(":material-cog:"), Piece::Text(":material-cog:")], &attrs),
        None
    );
    assert_eq!(icon_shortcode(&[Piece::Other], &attrs), None);
    assert_eq!(icon_shortcode(&[], &attrs), None);
}

#[test]
fn progress_bar_heads() {
    assert_eq!(progress_head("45", Some("a \"b\"")), "[=45% \"a b\"]");
    assert_eq!(progress_head("33.33", None), "[=33.33%]");
    assert_eq!(progress_head("0", Some("")), "[=0% \"\"]");
}

#[test]
fn bare_citation_keys() {
    assert!(is_bare_key("ein05"));
    assert!(is_bare_key("fig:boot"));
    assert!(is_bare_key("doi:10.1002/andp.19053221004"));
    assert!(is_bare_key("https://e.org/x"));
    assert!(!is_bare_key("7HA7H"));
    assert!(!is_bare_key("a"));
    assert!(!is_bare_key("key."));
    assert!(!is_bare_key("a/b"));
    assert!(!is_bare_key("doi:a b"));
    assert!(!is_bare_key("https://e.org/(x)"));
}

fn printed(prefix: &str, items: &[RefItem], bracketed: bool) -> String {
    let mut out = Out::new(None);
    out.push(prefix);
    reference(&mut out, items, bracketed);
    out.finish()
}

#[test]
fn references_print_bare_or_bracketed() {
    let key = |k: &str| RefItem {
        key: k.to_string(),
        ..RefItem::default()
    };
    assert_eq!(printed("see ", &[key("ein05")], false), "see @ein05");
    assert_eq!(printed("text.", &[key("ein05")], false), "text. @ein05");
    assert_eq!(printed("(", &[key("ein05")], false), "(@ein05");
    assert_eq!(printed("", &[key("ein05")], true), "@[ein05]");
    assert_eq!(printed("", &[key("7HA7H")], false), "@[7HA7H]");
    let full = RefItem {
        prefix: Some("see".to_string()),
        suppress_author: true,
        key: "ein05".to_string(),
        suffix: Some("p. 33".to_string()),
        ..RefItem::default()
    };
    let narrative = RefItem {
        narrative: true,
        key: "ko20".to_string(),
        ..RefItem::default()
    };
    assert_eq!(
        printed("", &[full, narrative], false),
        "@[see -ein05, p. 33; +ko20]"
    );
}

#[test]
fn a_printed_citation_reads_back() {
    let items = vec![
        RefItem {
            prefix: Some("see also".to_string()),
            suppress_author: true,
            key: "ein05".to_string(),
            suffix: Some("p. 33, fig. 2".to_string()),
            ..RefItem::default()
        },
        RefItem { narrative: true, key: "ko20".to_string(), ..RefItem::default() },
        RefItem { key: "doi:10.1/x".to_string(), ..RefItem::default() },
    ];
    let text = printed("", &items, true);
    assert_eq!(text, "@[see also -ein05, p. 33, fig. 2; +ko20; doi:10.1/x]");
    let inner = &text[2..text.len() - 1];
    let back = tmark::head::parse_ref_items(inner);
    assert_eq!(back.len(), items.len());
    for (read, written) in back.iter().zip(&items) {
        assert_eq!(read.prefix, written.prefix);
        assert_eq!(read.suppress_author, written.suppress_author);
        assert_eq!(read.narrative, written.narrative);
        assert_eq!(read.key, written.key);
        assert_eq!(read.suffix, written.suffix);
    }
    assert_eq!(&inner[back[1].key_span.0.start as usize..back[1].key_span.0.end as usize], "ko20");
}

#[test]
fn aside_sides_read_back() {
    for side in [Side::Left, Side::Right, Side::Outer, Side::Inner] {
        assert_eq!(tmark::lower::parse_side(side_name(side)), Some(side));
        assert_eq!(tmark::lower::parse_side(&side_name(side)[..1]), Some(side));
    }
}

#[test]
fn a_printed_icon_reads_back_as_an_icon() {
    let mut attrs = Attrs::default();
    attrs.classes.push("icon".to_string());
    attrs.kv.push(("media".to_string(), "web".to_string()));
    let printed = icon_shortcode(&[Piece::Text(":octicons-mark-github-16:")], &attrs).unwrap();
    match tmark::sugar::shortcode(printed, 0) {
        Some((len, tmark::sugar::Shortcode::Icon)) => assert_eq!(len, printed.len()),
        other => panic!("not read back as an icon: {:?}", other),
    }
}
