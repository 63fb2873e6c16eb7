use tmark::frontmatter::{deprecated_key_target, sort_front_matter, FrontMatterError};
use tmark::keys::{sort_keys, Json, Sorted};

fn parse(raw: &str) -> Result<Sorted, FrontMatterError> {
    sort_front_matter(raw)
}

fn get<'a>(entries: &'a [(String, Json)], key: &str) -> Option<&'a Json> {
    entries.iter().find(|(k, _)| k == key).map(|(_, v)| v)
}

fn at<'a>(value: &'a Json, key: &str) -> Option<&'a Json> {
    match value {
        Json::Object(entries) => get(entries, key),
        _ => None,
    }
}

fn text(value: Option<&Json>) -> Option<&str> {
    match value {
        Some(Json::Str(s)) => Some(s.as_str()),
        _ => None,
    }
}

#[test]
fn deprecated_keys_move_to_their_group() {
    let fm = parse(
        "counters:\n  fw: {name: Finding, format: \"FW-{n:02d}\", start: 1, scope: document, ref: \"{number}\"}\nbibliography:\n  ein05: https://doi.org/10.1002/andp.19053221004\npress:\n  crossrefs: {fwrev: build/fw.refs.json}\n  sources:\n    crossrefs: {other: x.json}\n",
    )
    .unwrap();
    assert_eq!(fm.deprecated, vec!["bibliography", "crossrefs", "counters"]);
    let declare = get(&fm.press, "declare").unwrap();
    let fw = at(at(declare, "counters").unwrap(), "fw").unwrap();
    assert_eq!(text(at(fw, "name")), Some("Finding"));
    assert_eq!(text(at(fw, "scope")), Some("document"));
    assert_eq!(text(at(fw, "ref")), Some("{number}"));
    let sources = get(&fm.press, "sources").unwrap();
    assert_eq!(
        text(at(at(sources, "bibliography").unwrap(), "ein05")),
        Some("https://doi.org/10.1002/andp.19053221004")
    );
    // The canonical `sources.crossrefs` wins over the deprecated spelling.
    let crossrefs = at(sources, "crossrefs").unwrap();
    assert_eq!(text(at(crossrefs, "other")), Some("x.json"));
    assert!(at(crossrefs, "fwrev").is_none());
}

#[test]
fn string_authors_and_callout_style_spellings() {
    let fm = parse(
        "authors: [TeXSmith, {name: Ada, email: a@b.c}]\npress:\n  admonition_style: classic\n",
    )
    .unwrap();
    match get(&fm.keys, "authors") {
        Some(Json::Array(authors)) => {
            assert_eq!(authors[0], Json::Str("TeXSmith".to_string()));
            assert_eq!(text(at(&authors[1], "email")), Some("a@b.c"));
        }
        other => panic!("{other:?}"),
    }
    assert_eq!(fm.deprecated, vec!["press.admonition_style"]);
    let press = get(&fm.extra, "press").unwrap();
    assert_eq!(text(at(at(press, "callouts").unwrap(), "style")), Some("classic"));
    assert!(at(press, "admonition_style").is_none());
    assert_eq!(
        deprecated_key_target("press.callout_style").as_deref(),
        Some("press.callouts.style")
    );
    assert_eq!(
        deprecated_key_target("counters").as_deref(),
        Some("press.declare.counters")
    );
    assert!(deprecated_key_target("title").is_none());
    // The explicit `callouts.style` wins over a deprecated spelling.
    let fm = parse("press:\n  callout_style: a\n  callouts: {style: b}\n").unwrap();
    let press = get(&fm.extra, "press").unwrap();
    assert_eq!(text(at(at(press, "callouts").unwrap(), "style")), Some("b"));
}

#[test]
fn errors_carry_a_location() {
    let err = parse("title: [unclosed\n").unwrap_err();
    assert!(err.line.is_some());
    assert!(parse("- a list\n").is_err());
    assert!(parse("press: 3\n").is_err());
}

#[test]
fn root_and_press_precedence() {
    let fm = parse(
        "title: Root title\ndate: 2025-03-15\nlang: fr\npress:\n  title: Press title\n  base_level: chapter\n  features: {figures.exec: true}\n",
    )
    .unwrap();
    assert_eq!(text(get(&fm.keys, "title")), Some("Press title"));
    assert_eq!(text(get(&fm.keys, "date")), Some("2025-03-15"));
    assert_eq!(text(get(&fm.keys, "lang")), Some("fr"));
    assert_eq!(text(get(&fm.press, "base_level")), Some("chapter"));
    assert_eq!(
        at(get(&fm.press, "features").unwrap(), "figures.exec"),
        Some(&Json::Bool(true))
    );
    assert!(fm.deprecated.is_empty());
    assert!(fm.extra.is_empty());
}

#[test]
fn title_null_is_distinct_from_absent() {
    assert_eq!(get(&parse("title: null\n").unwrap().keys, "title"), Some(&Json::Null));
    assert_eq!(get(&parse("lang: en\n").unwrap().keys, "title"), None);
    let empty = parse("").unwrap();
    assert!(empty.keys.is_empty());
    assert!(empty.press.is_empty());
    assert!(empty.extra.is_empty());
    assert!(empty.deprecated.is_empty());
}

#[test]
fn numeric_dates_stay_text_and_unknown_keys_stay() {
    let fm = parse("date: 2025\ntags: [a, b]\npress:\n  template: book\n").unwrap();
    assert_eq!(text(get(&fm.keys, "date")), Some("2025"));
    assert_eq!(
        get(&fm.extra, "tags"),
        Some(&Json::Array(vec![
            Json::Str("a".to_string()),
            Json::Str("b".to_string())
        ]))
    );
    assert_eq!(text(at(get(&fm.extra, "press").unwrap(), "template")), Some("book"));
    assert!(get(&fm.keys, "tags").is_none());
}

#[test]
fn group_that_is_not_a_mapping() {
    let err = parse("sources: 3\nbibliography: {a: b}\n").unwrap_err();
    assert_eq!(err.message, "`sources` must be a mapping");
    let err = parse("press: {declare: [x]}\nglossary: {a: b}\n").unwrap_err();
    assert_eq!(err.message, "`declare` must be a mapping");
    // Without a spelling to move in, the group is kept as written.
    let fm = parse("sources: 3\n").unwrap();
    assert_eq!(get(&fm.press, "sources"), Some(&Json::Number("3".to_string())));
    let err = parse("- x\n").unwrap_err();
    assert_eq!(err.message, "front matter must be a YAML mapping");
    let err = parse("press: [x]\n").unwrap_err();
    assert_eq!(err.message, "`press` must be a mapping");
    assert!(parse("").unwrap().keys.is_empty());
}

#[test]
fn unknown_keys_are_preserved() {
    let fm = parse(
        "title: T\nauthors: [{name: Ada, affiliation: AE}]\ntags: [a, b]\npress:\n  template: book\n  callouts: {style: fancy}\n  declare:\n    admonitions:\n      solution: {name: Solution, group: Solutions}\n",
    )
    .unwrap();
    let authors = get(&fm.keys, "authors").unwrap();
    let first = match authors {
        Json::Array(items) => &items[0],
        _ => panic!("authors stay a list"),
    };
    assert_eq!(text(at(first, "name")), Some("Ada"));
    assert_eq!(
        get(&fm.extra, "tags"),
        Some(&Json::Array(vec![Json::Str("a".to_string()), Json::Str("b".to_string())]))
    );
    let press = get(&fm.extra, "press").unwrap();
    assert_eq!(text(at(press, "template")), Some("book"));
    assert_eq!(text(at(at(press, "callouts").unwrap(), "style")), Some("fancy"));
    assert!(get(&fm.extra, "title").is_none());
    let declare = get(&fm.press, "declare").unwrap();
    let solution = at(at(declare, "admonitions").unwrap(), "solution").unwrap();
    assert_eq!(text(at(solution, "group")), Some("Solutions"));
    assert_eq!(text(at(solution, "name")), Some("Solution"));
}

#[test]
fn a_reader_error_keeps_its_text_and_location() {
    let raw = "title: [unclosed\n";
    let direct = serde_yaml_ng::from_str::<serde_json::Value>(raw).unwrap_err();
    let location = direct.location().unwrap();
    let err = parse(raw).unwrap_err();
    assert_eq!(err.message, direct.to_string());
    assert_eq!(err.line, Some(location.line() as u32));
    assert_eq!(err.col, Some(location.column() as u32));
    let from = FrontMatterError::from_yaml(serde_yaml_ng::from_str::<serde_json::Value>(raw).unwrap_err());
    assert_eq!(from.message, direct.to_string());
}

#[test]
fn sorting_a_value_that_is_no_mapping_fails() {
    let err = sort_keys(Json::Array(vec![])).unwrap_err();
    assert_eq!(err.message, "front matter must be a YAML mapping");
    assert!(err.line.is_none());
}
