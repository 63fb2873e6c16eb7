use tmark::lower::{align, classify, decode_escapes, BraceKind};

#[test]
fn alignment_finds_escapes_and_entities() {
    let map = |text: &str, source: &str| {
        align(text, source).map(|a| {
            a.escaped
                .iter()
                .enumerate()
                .filter(|(_, b)| **b)
                .map(|(i, _)| i)
                .collect::<Vec<_>>()
        })
    };
    assert_eq!(map("a (c) b", "a \\(c) b"), Some(vec![2]));
    assert_eq!(map("1/2", "1\\/2"), Some(vec![1]));
    assert_eq!(map("&(c) (c)", "&amp;(c) \\(c)"), Some(vec![5]));
    assert_eq!(map("© (c)", "&copy; \\(c)"), Some(vec![3]));
    assert_eq!(map("&b; (c)", "&b; \\(c)"), Some(vec![4]));
    assert_eq!(map("a b", "a b"), Some(vec![]));
    assert_eq!(map("x", "y"), None, "not the text's source");
    assert_eq!(map("ab", "a"), None, "source too short");
    let a = align("a © b", "a &copy; b").unwrap();
    assert_eq!(a.offsets, vec![0, 1, 2, 2, 8, 9, 10]);
    let a = align("(c) x", "\\(c) x").unwrap();
    assert_eq!(a.offsets, vec![0, 2, 3, 4, 5, 6]);
}

#[test]
fn alignment_edges() {
    let a = align("", "").unwrap();
    assert_eq!(a.offsets, vec![0]);
    assert!(a.escaped.is_empty());
    // `&AMP;` decodes to `&` too, in any case.
    let a = align("&x", "&AMP;x").unwrap();
    assert_eq!(a.offsets, vec![0, 5, 6]);
    // A reference name of more than forty bytes is literal text.
    let long = format!("&{};", "a".repeat(41));
    assert!(align("x", &long).is_none());
    // A backslash before a letter is no escape.
    assert!(align("a", "\\a").is_none());
    let a = align("é", "é").unwrap();
    assert_eq!(a.offsets, vec![0, 1, 2]);
    assert_eq!(a.escaped, vec![false, false]);
}

use tmark::lower::{doi_key, parse_counter, parse_side, target};
use tmark::node::{Side, Target};

#[test]
fn link_targets() {
    assert_eq!(target("#sec:a"), Target::Anchor("sec:a".to_string()));
    assert_eq!(target("other.md"), Target::Document("other.md".to_string()));
    assert_eq!(
        target("https://e.org/a.md"),
        Target::Url("https://e.org/a.md".to_string())
    );
    assert_eq!(target("a.png"), Target::Url("a.png".to_string()));
    assert_eq!(target(""), Target::Url(String::new()));
    assert_eq!(target("#"), Target::Anchor(String::new()));
}

#[test]
fn aside_sides() {
    assert_eq!(parse_side("left"), Some(Side::Left));
    assert_eq!(parse_side("l"), Some(Side::Left));
    assert_eq!(parse_side("r"), Some(Side::Right));
    assert_eq!(parse_side("outer"), Some(Side::Outer));
    assert_eq!(parse_side("i"), Some(Side::Inner));
    assert_eq!(parse_side("Left"), None);
    assert_eq!(parse_side(""), None);
}

#[test]
fn counter_items_split_on_the_first_colon() {
    assert_eq!(
        parse_counter("fw:boot-loop"),
        Some(("fw".to_string(), "boot-loop".to_string()))
    );
    assert_eq!(
        parse_counter("n:joy.1_a"),
        Some(("n".to_string(), "joy.1_a".to_string()))
    );
    assert_eq!(parse_counter("fw:"), None);
    assert_eq!(parse_counter(":x"), None);
    assert_eq!(parse_counter("1a:x"), None);
    assert_eq!(parse_counter("a:b:c"), None);
    assert_eq!(parse_counter("nope"), None);
}

#[test]
fn doi_spellings() {
    assert_eq!(doi_key("https://doi.org/10.1/x"), "doi:10.1/x");
    assert_eq!(doi_key("http://doi.org/10.1/x"), "doi:10.1/x");
    assert_eq!(doi_key("https://dx.doi.org/10.1/x"), "doi:10.1/x");
    assert_eq!(doi_key("10.1002/andp"), "doi:10.1002/andp");
    assert_eq!(doi_key("10.1002"), "10.1002");
    assert_eq!(doi_key("ein05"), "ein05");
    assert_eq!(doi_key("doi:10.1/x"), "doi:10.1/x");
}

#[test]
fn escapes_of_literal_source() {
    assert_eq!(decode_escapes(r"a \+ b \\ \x é\é \"), r"a + b \ \x é\é \");
    assert_eq!(decode_escapes(r"\{raw\}(x\)"), "{raw}(x)");
    assert_eq!(decode_escapes(r"\\\\"), r"\\");
    assert_eq!(decode_escapes(""), "");
}

#[test]
fn brace_groups() {
    assert_eq!(
        classify(" a.b_c ", true),
        BraceKind::Moustache(vec!["a".to_string(), "b_c".to_string()])
    );
    assert_eq!(classify("title", true), BraceKind::Moustache(vec!["title".to_string()]));
    assert_eq!(classify("a..b", true), BraceKind::Literal);
    assert_eq!(classify(".a", true), BraceKind::Literal);
    assert_eq!(classify("a.", true), BraceKind::Literal);
    assert_eq!(classify("  ", true), BraceKind::Literal);
    assert_eq!(classify("é", true), BraceKind::Literal);
    assert_eq!(
        classify("#x .y k=v", false),
        BraceKind::Attrs(tmark::head::parse_attrs("#x .y k=v").unwrap())
    );
    assert_eq!(
        classify("aside side=left", false),
        BraceKind::Role(tmark::head::parse_role_head("aside side=left").unwrap())
    );
    assert_eq!(classify(": .x", false), BraceKind::Attrs(tmark::head::parse_attrs(": .x").unwrap()));
    assert_eq!(classify("a b c", false), BraceKind::Literal);
    assert_eq!(classify("#", false), BraceKind::Literal);
}
