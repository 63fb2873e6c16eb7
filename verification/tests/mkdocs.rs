use tmark::attrs::Attrs;
use tmark::mkdocs::{
    anchor, code, counter, include_snippet, keys, order, raw_block, raw_inline, reference,
    BlockShape,
};
use tmark::node::{CaptionKind, CounterItem, Include, RawBlock, RawInline, RefItem};
use tmark::out::{Lookup, Out, Registry};

fn lookup() -> Lookup {
    Lookup::new(
        vec!["fig".to_string(), "sec".to_string()],
        vec!["claim".to_string()],
        vec!["fn1".to_string()],
    )
}

fn item(key: &str) -> RefItem {
    RefItem {
        key: key.to_string(),
        ..RefItem::default()
    }
}

#[test]
fn registries() {
    let l = lookup();
    assert_eq!(l.registry(b"gls:api"), Registry::Glossary);
    assert_eq!(l.registry(b"sec:intro"), Registry::Label);
    assert_eq!(l.registry(b"Fig:x"), Registry::Label, "heads in any case");
    assert_eq!(l.registry(b"knuth:1984"), Registry::Bibliography);
    assert_eq!(l.registry(b"claim"), Registry::Label);
    assert_eq!(l.registry(b"ein05"), Registry::Bibliography);
    assert!(l.is_head(b"SEC"));
    assert!(!l.is_head(b"tbl"));
}

#[test]
fn keystrokes() {
    let mut out = Out::new(Some(lookup()));
    let list = vec!["ctrl".to_string(), "alt".to_string(), "s".to_string()];
    assert!(keys(&mut out, &list));
    assert_eq!(out.finish(), "++ctrl+alt+s++");
    let mut out = Out::new(None);
    assert!(!keys(&mut out, &["a+b".to_string()]));
    assert!(!keys(&mut out, &[]));
    assert!(!keys(&mut out, &["".to_string()]));
    out.push("x+");
    assert!(!keys(&mut out, &["a".to_string()]), "after a `+`");
    assert_eq!(out.finish(), "x+");
}

#[test]
fn inline_code_with_a_language() {
    let mut out = Out::new(None);
    assert!(code(&mut out, "print(1)", "py", false));
    assert_eq!(out.finish(), "`#!py print(1)`");
    let mut out = Out::new(None);
    assert!(code(&mut out, "a|b", "c++", true));
    assert_eq!(out.finish(), "`#!c++ a\\|b`");
    let mut out = Out::new(None);
    assert!(!code(&mut out, " x", "py", false));
    assert!(!code(&mut out, "a\nb", "py", false));
    assert!(!code(&mut out, "x", "p y", false));
    assert!(!code(&mut out, "", "py", false));
    assert_eq!(out.finish(), "");
}

#[test]
fn counter_items() {
    let item = CounterItem {
        prefix: "Fig".to_string(),
        key: "a".to_string(),
        ..CounterItem::default()
    };
    let mut out = Out::new(Some(lookup()));
    assert!(counter(&mut out, &item));
    assert_eq!(out.finish(), "#{Fig:a}");
    let mut out = Out::new(None);
    assert!(!counter(&mut out, &item), "canonical profile");
    let mut out = Out::new(Some(lookup()));
    let unknown = CounterItem {
        prefix: "rq".to_string(),
        ..item.clone()
    };
    assert!(!counter(&mut out, &unknown));
    let colon = CounterItem {
        key: "a:b".to_string(),
        ..item.clone()
    };
    assert!(!counter(&mut out, &colon));
}

#[test]
fn anchors() {
    let mut attrs = Attrs::default();
    attrs.id = Some("myanchor".to_string());
    let mut out = Out::new(None);
    assert!(anchor(&mut out, &attrs, false));
    assert_eq!(out.finish(), "[](){#myanchor}");
    let mut out = Out::new(None);
    assert!(!anchor(&mut out, &attrs, true));
    assert!(!anchor(&mut out, &Attrs::default(), false));
}

#[test]
fn raw_inlines() {
    let raw = |format: &str, text: &str| RawInline {
        format: format.to_string(),
        text: text.to_string(),
        ..RawInline::default()
    };
    let mut out = Out::new(None);
    assert!(raw_inline(&mut out, &raw("latex", "\\clearpage")));
    assert_eq!(out.finish(), "{latex}[\\clearpage]");
    let mut out = Out::new(None);
    assert!(raw_inline(&mut out, &raw("html", "a <b")));
    assert_eq!(out.finish(), "{html}[a <b]");
    let mut out = Out::new(None);
    assert!(!raw_inline(&mut out, &raw("html", "<b>")), "an HTML tag prints as typed");
    assert!(!raw_inline(&mut out, &raw("latex", "a]b")));
    assert!(!raw_inline(&mut out, &raw("latex", "a\\")));
    assert!(!raw_inline(&mut out, &raw("latex", "a\nb")));
    assert!(!raw_inline(&mut out, &raw("context", "x")));
}

#[test]
fn references() {
    let mut out = Out::new(Some(lookup()));
    assert!(reference(&mut out, &[item("gls:api")]));
    assert_eq!(out.finish(), "[](gls:api)");
    let mut out = Out::new(Some(lookup()));
    assert!(reference(&mut out, &[item("ein05")]));
    assert_eq!(out.finish(), "[^ein05]");
    let mut out = Out::new(Some(lookup()));
    assert!(reference(&mut out, &[item("ein05"), item("knuth:84")]));
    assert_eq!(out.finish(), "^[ein05,knuth:84]");
    let mut out = Out::new(Some(lookup()));
    assert!(!reference(&mut out, &[item("sec:intro")]), "a label keeps @");
    assert!(!reference(&mut out, &[item("claim")]));
    assert!(!reference(&mut out, &[item("fn1")]), "a footnote's key");
    assert!(!reference(&mut out, &[item("café")]), "outside the bare-key class");
    assert!(!reference(&mut out, &[item("a b")]));
    assert!(!reference(&mut out, &[]));
    let mut narrative = item("ein05");
    narrative.narrative = true;
    assert!(!reference(&mut out, &[narrative]));
    assert!(!reference(&mut out, &[item("gls:a"), item("gls:b")]));
    assert_eq!(out.finish(), "");
    let mut out = Out::new(None);
    assert!(!reference(&mut out, &[item("ein05")]), "canonical profile");
}

#[test]
fn raw_blocks() {
    let block = |format: &str, text: &str| RawBlock {
        format: format.to_string(),
        text: text.to_string(),
        ..RawBlock::default()
    };
    let mut out = Out::new(None);
    assert!(raw_block(&mut out, &block("latex", "\\clearpage")));
    assert_eq!(out.finish(), "/// latex\n\\clearpage\n///\n");
    let mut out = Out::new(None);
    assert!(raw_block(&mut out, &block("latex", "")));
    assert_eq!(out.finish(), "/// latex\n///\n");
    let mut out = Out::new(None);
    assert!(raw_block(&mut out, &block("latex", "a\n//// b\n")));
    assert_eq!(out.finish(), "/// latex\na\n//// b\n\n///\n");
    let mut out = Out::new(None);
    assert!(!raw_block(&mut out, &block("latex", "a\n  ///\t\nb")));
    assert!(!raw_block(&mut out, &block("latex", "///")));
    assert!(!raw_block(&mut out, &block("typst", "x")));
    assert_eq!(out.finish(), "");
}

#[test]
fn snippets() {
    let inc = |path: &str, base: Option<&str>| Include {
        path: path.to_string(),
        base: base.map(str::to_string),
        ..Include::default()
    };
    let mut out = Out::new(None);
    assert!(include_snippet(&mut out, &inc("a.md", None)));
    assert_eq!(out.finish(), "--8<-- \"a.md\"\n");
    let mut out = Out::new(None);
    assert!(!include_snippet(&mut out, &inc("a.md", Some("docs"))));
    assert!(!include_snippet(&mut out, &inc("a\".md", None)));
    assert!(!include_snippet(&mut out, &inc("", None)));
    assert_eq!(out.finish(), "");
}

#[test]
fn table_captions_print_before_their_tables() {
    let table_caption = BlockShape::Caption(CaptionKind::Table);
    assert_eq!(
        order(&[BlockShape::Other, BlockShape::Table, BlockShape::TableConfig, table_caption, BlockShape::Other]),
        vec![0, 3, 1, 2, 4]
    );
    // After a float the parser attaches the caption to that float first.
    assert_eq!(order(&[BlockShape::Float, BlockShape::Table, table_caption]), vec![0, 1, 2]);
    assert_eq!(
        order(&[BlockShape::Table, table_caption, BlockShape::Table, table_caption]),
        vec![1, 0, 2, 3]
    );
    assert_eq!(
        order(&[BlockShape::Table, BlockShape::Caption(CaptionKind::Figure)]),
        vec![0, 1]
    );
    assert_eq!(order(&[]), Vec::<usize>::new());
}
