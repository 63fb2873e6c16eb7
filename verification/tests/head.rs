use tmark::attrs::Attrs;
use tmark::span::{FileId, Span, SubSpan};
use tmark::head::{
    attr_value_offset, attrs_text, has_attr_colon, parse_admonition_info, parse_attrs,
    parse_container_info, parse_fence_info, parse_ref_items, parse_role_head,
};

#[test]
fn attrs() {
    let attrs = parse_attrs("#sec:intro .draft lang=en title=\"a b\"").unwrap();
    assert_eq!(attrs.id.as_deref(), Some("sec:intro"));
    assert_eq!(attrs.classes, vec!["draft"]);
    assert_eq!(attrs.get("lang"), Some("en"));
    assert_eq!(attrs.get("title"), Some("a b"));
    let attrs = parse_attrs(r#"k="a \"b\" c" j="x}y" l="p\\q" m="\n""#).unwrap();
    assert_eq!(attrs.get("k"), Some(r#"a "b" c"#));
    assert_eq!(attrs.get("j"), Some("x}y"));
    assert_eq!(attrs.get("l"), Some(r"p\q"));
    assert_eq!(attrs.get("m"), Some(r"\n"), "only `\\\"` and `\\\\` decode");
    assert!(parse_attrs("collapsed").is_none(), "no bare words");
    let attrs = parse_attrs(": #sec:boot .draft").unwrap();
    assert_eq!(attrs.id.as_deref(), Some("sec:boot"));
    assert_eq!(attrs.classes, vec!["draft"]);
    assert_eq!(parse_attrs(":.thin").unwrap().classes, vec!["thin"]);
    assert!(has_attr_colon(": .thin") && !has_attr_colon(".thin"));
    assert!(parse_attrs(":").is_none());
    assert_eq!(attrs_text(&attrs), "{#sec:boot .draft}");
    let mut attrs = Attrs::new();
    attrs.kv.push(("title".into(), "a \"b\"".into()));
    assert_eq!(attrs_text(&attrs), "{title=\"a \\\"b\\\"\"}");
    assert!(parse_attrs("").is_none());
    assert!(parse_attrs("aside side=left").is_none());
}

#[test]
fn role_heads() {
    let head = parse_role_head("aside side=left").unwrap();
    assert_eq!(head.name, "aside");
    assert_eq!(head.kv, vec![("side".to_string(), "left".to_string())]);
    let head = parse_role_head("raw latex").unwrap();
    assert_eq!(head.positional.as_deref(), Some("latex"));
    let head = parse_role_head("index:physics").unwrap();
    assert_eq!(head.registry_suffix.as_deref(), Some("physics"));
    assert!(parse_role_head("#id").is_none());
    assert!(parse_role_head("a b c").is_none(), "one positional at most");
}

#[test]
fn ref_items() {
    let items = parse_ref_items("see ein05, pp. 33-35; -AI2027, ch. 1; fig:a");
    assert_eq!(items.len(), 3);
    assert_eq!(items[0].prefix.as_deref(), Some("see"));
    assert_eq!(items[0].key, "ein05");
    assert_eq!(items[0].suffix.as_deref(), Some("pp. 33-35"));
    assert!(items[1].suppress_author);
    assert_eq!(items[1].key, "AI2027");
    assert_eq!(items[2].key, "fig:a");
    assert!(items[2].prefix.is_none() && items[2].suffix.is_none());
    let inner = "see ein05, pp. 33-35; -AI2027, ch. 1; fig:a";
    let spans: Vec<&str> = items
        .iter()
        .map(|i| &inner[i.key_span.0.start as usize..i.key_span.0.end as usize])
        .collect();
    assert_eq!(spans, ["ein05", "AI2027", "fig:a"]);
    let items = parse_ref_items("@ab; -@bc, p. 1; not a key!");
    assert_eq!(items[0].key, "ab");
    assert_eq!((items[0].key_span.0.start, items[0].key_span.0.end), (1, 3));
    assert!(items[1].suppress_author);
    assert_eq!(items[1].key, "bc");
    assert_eq!((items[1].key_span.0.start, items[1].key_span.0.end), (7, 9));
    assert_eq!(items[2].key, "not a key!");
    assert_eq!(
        (items[2].key_span.0.start, items[2].key_span.0.end),
        (17, 27)
    );
    let items = parse_ref_items("-@b, p. 3");
    assert_eq!(items[0].key, "-b, p. 3");
    assert!(items[0].suffix.is_none() && !items[0].suppress_author);
    let items = parse_ref_items("see +ein05, p. 3; +@ko20; +-ko20");
    assert!(items[0].narrative && !items[0].suppress_author);
    assert_eq!(items[0].prefix.as_deref(), Some("see"));
    assert_eq!(items[0].key, "ein05");
    assert_eq!(
        (items[0].key_span.0.start, items[0].key_span.0.end),
        (5, 10)
    );
    assert_eq!(items[0].suffix.as_deref(), Some("p. 3"));
    assert!(items[1].narrative);
    assert_eq!(items[1].key, "ko20");
    assert!(!items[2].narrative && items[2].key == "+-ko20");
    let items = parse_ref_items("7HA7H, p. 3; see 1RgTv; 12, p. 4");
    assert_eq!(items[0].key, "7HA7H");
    assert_eq!(items[0].suffix.as_deref(), Some("p. 3"));
    assert_eq!(items[1].prefix.as_deref(), Some("see"));
    assert_eq!(items[1].key, "1RgTv");
    assert_eq!(items[2].key, "12, p. 4");
}

#[test]
fn attrs_id_span() {
    let attrs = parse_attrs(" .draft #sec:intro lang=en").unwrap();
    let span = attrs.id_span.unwrap().0;
    assert_eq!((span.start, span.end), (9, 18));
    let attrs = parse_attrs(": #id").unwrap();
    let span = attrs.id_span.unwrap().0;
    assert_eq!((span.start, span.end), (3, 5), "relative to the whole text");
}

#[test]
fn fence_info_braces_only() {
    for (lang, meta) in [
        ("{", Some(".c .annotate }")),
        ("{.c", Some(".annotate}")),
        ("{.c", Some(".annotate }")),
        ("{", Some(": .c .annotate}")),
    ] {
        let info = parse_fence_info(Some(lang), meta).unwrap();
        assert_eq!(info.lang, "c", "{lang} {meta:?}");
        assert_eq!(info.attrs.classes, vec!["annotate"], "{lang} {meta:?}");
        assert!(info.braced);
        assert!(info.node.is_none());
    }
    let info = parse_fence_info(Some("{.c}"), None).unwrap();
    assert_eq!(info.lang, "c");
    assert!(info.attrs.classes.is_empty());
    let info = parse_fence_info(Some("{#x"), Some(".c title=\"a b\"}")).unwrap();
    assert_eq!(info.lang, "c");
    assert_eq!(info.attrs.id.as_deref(), Some("x"));
    assert_eq!(info.attrs.get("title"), Some("a b"));
    let info = parse_fence_info(Some("{"), Some("title=\"only\" }")).unwrap();
    assert!(info.lang.is_empty());
    assert!(info.braced);
    for (lang, meta) in [
        ("{", None),
        ("{", Some("not an attribute list")),
        ("{.c", Some("no closing brace")),
    ] {
        assert!(
            parse_fence_info(Some(lang), meta).map_or(true, |i| i.lang != "{"),
            "{lang} {meta:?}"
        );
    }
}

#[test]
fn fence_info() {
    let info = parse_fence_info(Some("python"), Some("image include=\"plot.py\"")).unwrap();
    assert_eq!(info.node.as_deref(), Some("image"));
    assert_eq!(
        info.attrs.kv,
        vec![("include".to_string(), "plot.py".to_string())]
    );
    let info = parse_fence_info(Some("yaml"), Some("table")).unwrap();
    assert_eq!(info.node.as_deref(), Some("table"));
    let info = parse_fence_info(Some("js"), Some("title=\"a.js\" linenums=\"1\"")).unwrap();
    assert!(info.node.is_none());
    assert_eq!(info.attrs.kv.len(), 2);
    assert!(parse_fence_info(None, None).is_none());
    let info = parse_fence_info(
        Some("md"),
        Some("{.snippet caption=\"A title\" width=\"60%\"}"),
    )
    .unwrap();
    assert_eq!(info.attrs.classes, vec!["snippet"]);
    assert_eq!(info.attrs.get("caption"), Some("A title"));
    assert_eq!(info.attrs.get("width"), Some("60%"));
    assert!(info.rest.is_none());
    let info = parse_fence_info(Some("mermaid"), Some("{width=80%}")).unwrap();
    assert_eq!(info.attrs.get("width"), Some("80%"));
    let info = parse_fence_info(Some("python"), Some("image {#fig:x .wide} ")).unwrap();
    assert_eq!(info.node.as_deref(), Some("image"));
    assert_eq!(info.attrs.id.as_deref(), Some("fig:x"));
    let info = parse_fence_info(Some("c"), Some("{not attrs}")).unwrap();
    assert!(info.attrs.is_empty());
    assert_eq!(info.rest.as_deref(), Some("{not attrs}"));
}

#[test]
fn container_and_admonition_info() {
    let (name, attrs, valid) = parse_container_info("warning {title=\"LaTeX toolchain\"}");
    assert_eq!(name, "warning");
    assert_eq!(attrs.unwrap().get("title"), Some("LaTeX toolchain"));
    assert!(valid);
    let (kind, classes, title) = parse_admonition_info("note inline end \"Folded\"");
    assert_eq!(kind, "note");
    assert_eq!(classes, vec!["inline", "end"]);
    assert_eq!(title, Some(("Folded".to_string(), 17)));
    let info = "  exercise \"#(ex:un) : T\"  ";
    let (_, _, title) = parse_admonition_info(info);
    let (text, at) = title.unwrap();
    assert_eq!(&info[at..at + text.len()], "#(ex:un) : T");
}

#[test]
fn attribute_values_are_located() {
    let s = "#a .b title=\"#(ex:un) : T\" lang=en";
    let at = attr_value_offset(s, "title").unwrap();
    assert_eq!(&s[at..at + "#(ex:un) : T".len()], "#(ex:un) : T");
    let at = attr_value_offset(s, "lang").unwrap();
    assert_eq!(&s[at..], "en");
    assert_eq!(attr_value_offset(s, "kind"), None);
    assert_eq!(attr_value_offset(r#"title="a \"b\"""#, "title"), None);
    let s = ": title=\"T\"";
    let at = attr_value_offset(s, "title").unwrap();
    assert_eq!(&s[at..at + 1], "T");
}

#[test]
fn canonical_text_reads_back() {
    let mut attrs = Attrs::new();
    attrs.id = Some("sec:a.b".to_string());
    attrs.classes = vec!["x".to_string(), "y-z".to_string()];
    attrs.kv = vec![
        ("title".to_string(), "a \"b\" c\\d".to_string()),
        ("empty".to_string(), String::new()),
        ("w".to_string(), "60%".to_string()),
        ("eq".to_string(), "a=b}".to_string()),
    ];
    let text = attrs_text(&attrs);
    assert_eq!(
        text,
        r#"{#sec:a.b .x .y-z title="a \"b\" c\\d" empty="" w=60% eq="a=b}"}"#
    );
    let back = parse_attrs(&text[1..text.len() - 1]).unwrap();
    assert_eq!(back.id, attrs.id);
    assert_eq!(back.classes, attrs.classes);
    assert_eq!(back.kv, attrs.kv);
    assert_eq!(back.id_span, Some(SubSpan(Span { file: FileId(0), start: 1, end: 8 })));

    let mut only_pairs = Attrs::new();
    only_pairs.kv = vec![("k".to_string(), "v w".to_string())];
    let text = attrs_text(&only_pairs);
    assert_eq!(parse_attrs(&text[1..text.len() - 1]), Some(only_pairs));
}

#[test]
fn a_wide_space_before_the_key_is_cut_whole() {
    let items = parse_ref_items("see\u{a0}ein05; cf.\u{3000}-ko20, p. 4");
    assert_eq!(items.len(), 2);
    assert_eq!(items[0].prefix.as_deref(), Some("see"));
    assert_eq!(items[0].key, "ein05");
    assert_eq!(items[1].prefix.as_deref(), Some("cf."));
    assert!(items[1].suppress_author);
    assert_eq!(items[1].key, "ko20");
    assert_eq!(items[1].suffix.as_deref(), Some("p. 4"));
}

#[test]
fn every_key_is_spelled_inside_the_text() {
    let inner = "see @ein05, p. 33; -AI2027; 12";
    let items = parse_ref_items(inner);
    assert_eq!(items.len(), inner.split(';').count());
    for item in &items {
        let (a, e) = (item.key_span.0.start as usize, item.key_span.0.end as usize);
        assert!(a <= e && e <= inner.len());
        assert_eq!(inner[a..e].replace('@', ""), item.key);
        assert!(!item.key.contains('@'));
        assert!(!(item.suppress_author && item.narrative));
    }
}
