use tmark::frontmatter::{sort_front_matter, GlossaryDecl, GlossaryEntry, GlossaryGroup};
use tmark::glossary::glossary_items;
use tmark::keys::Json;

fn get<'a>(entries: &'a [(String, Json)], key: &str) -> Option<&'a Json> {
    entries.iter().find(|(k, _)| k == key).map(|(_, v)| v)
}

/// The glossary declared by a front matter's text, and the deprecated
/// spellings met while sorting its keys.
fn glossary(raw: &str) -> (GlossaryDecl, Vec<String>) {
    let sorted = sort_front_matter(raw).unwrap();
    let value = match get(&sorted.press, "declare") {
        Some(Json::Object(declare)) => get(declare, "glossary"),
        _ => None,
    };
    let decl = value.map(GlossaryDecl::from_value).unwrap_or_default();
    (decl, sorted.deprecated)
}

fn s(text: &str) -> Json {
    Json::Str(text.to_string())
}

fn obj(entries: &[(&str, Json)]) -> Json {
    Json::Object(
        entries
            .iter()
            .map(|(k, v)| (k.to_string(), clone(v)))
            .collect(),
    )
}

fn clone(v: &Json) -> Json {
    match v {
        Json::Null => Json::Null,
        Json::Bool(b) => Json::Bool(*b),
        Json::Number(n) => Json::Number(n.clone()),
        Json::Str(t) => Json::Str(t.clone()),
        Json::Array(a) => Json::Array(a.iter().map(clone).collect()),
        Json::Object(m) => Json::Object(m.iter().map(|(k, x)| (k.clone(), clone(x))).collect()),
    }
}

#[test]
fn glossary_reads_both_spellings() {
    // Flat: every key is a term.
    let (g, _) = glossary("press:\n  declare:\n    glossary:\n      api: An interface\n      solid: {name: SOLID, description: Five principles}\n");
    assert!(g.style.is_none() && g.groups.is_empty());
    assert_eq!(g.entries["api"].definition(), "An interface");
    assert_eq!(g.entries["solid"].definition(), "SOLID");

    // Structured: the terms sit under `entries`, `style` and `groups`
    // are form and never terms.
    let (g, _) = glossary("press:\n  declare:\n    glossary:\n      style: long\n      groups:\n        core: {title: Core terms}\n      entries:\n        api: {group: core, description: An interface, long: Application Programming Interface}\n");
    assert_eq!(g.style.as_deref(), Some("long"));
    assert_eq!(g.groups["core"].title, "Core terms");
    assert_eq!(g.entries.keys().collect::<Vec<_>>(), vec!["api"]);
    assert_eq!(g.entries["api"].group.as_deref(), Some("core"));
    assert_eq!(
        g.entries["api"].long.as_deref(),
        Some("Application Programming Interface")
    );

    // Mixed: the structural keys win over a flat key of the same name.
    let (g, deprecated) = glossary("glossary:\n  style: long\n  entries: {api: An interface}\n  doi: A digital object identifier\n");
    assert_eq!(deprecated, vec!["glossary"]);
    assert_eq!(g.entries["api"].definition(), "An interface");
    assert_eq!(g.entries["doi"].definition(), "A digital object identifier");

    // A bare string names a style; anything else declares nothing and
    // never fails the front matter.
    let (g, _) = glossary("press:\n  declare:\n    glossary: altlist\n");
    assert_eq!(g.style.as_deref(), Some("altlist"));
    let (g, _) = glossary("press:\n  declare:\n    glossary: [a, b]\n");
    assert!(g.is_empty());
}

#[test]
fn glossary_groups_take_a_string_or_a_title() {
    assert_eq!(GlossaryGroup::from_value(&s("Core terms")).title, "Core terms");
    assert_eq!(
        GlossaryGroup::from_value(&obj(&[("title", s("  Core  "))])).title,
        "  Core  "
    );
    assert_eq!(GlossaryGroup::from_value(&obj(&[("name", s("x"))])).title, "");
    assert_eq!(GlossaryGroup::from_value(&Json::Bool(true)).title, "");
}

#[test]
fn glossary_entries_trim_and_drop_blank_fields() {
    let e = GlossaryEntry::from_value(&s("  An interface \n"));
    assert_eq!(e.description.as_deref(), Some("An interface"));
    assert!(e.name.is_none() && e.long.is_none() && e.group.is_none());
    assert!(GlossaryEntry::from_value(&s("   ")).description.is_none());
    assert_eq!(GlossaryEntry::from_value(&Json::Null), GlossaryEntry::default());
    let e = GlossaryEntry::from_value(&obj(&[
        ("name", s(" API ")),
        ("description", s("")),
        ("long", Json::Number("3".to_string())),
        ("group", s("core")),
    ]));
    assert_eq!(e.name.as_deref(), Some("API"));
    assert!(e.description.is_none());
    assert!(e.long.is_none());
    assert_eq!(e.group.as_deref(), Some("core"));
}

#[test]
fn glossary_entries_of_other_values_keep_their_json_text() {
    let e = GlossaryEntry::from_value(&Json::Number("42".to_string()));
    assert_eq!(e.description.as_deref(), Some("42"));
    let e = GlossaryEntry::from_value(&Json::Bool(false));
    assert_eq!(e.description.as_deref(), Some("false"));
    let e = GlossaryEntry::from_value(&Json::Array(vec![
        Json::Number("1".to_string()),
        s("a\"b"),
        Json::Null,
    ]));
    assert_eq!(e.description.as_deref(), Some("[1,\"a\\\"b\",null]"));
}

#[test]
fn glossary_structured_terms_win_over_flat_ones() {
    let value = obj(&[
        ("api", s("Flat")),
        ("entries", obj(&[("api", s("Structured"))])),
        ("zed", s("Z")),
        ("zed", s("Later")),
        ("groups", obj(&[("core", s("Core"))])),
        ("style", s(" long ")),
    ]);
    let (groups, terms, flat) = glossary_items(&value);
    assert_eq!(groups.len(), 1);
    assert_eq!(terms.len(), 1);
    assert_eq!(flat.len(), 1);
    assert_eq!(flat[0].0, "zed");
    assert_eq!(flat[0].1.description.as_deref(), Some("Z"));
    let g = GlossaryDecl::from_value(&value);
    assert_eq!(g.style.as_deref(), Some("long"));
    assert_eq!(g.entries["api"].definition(), "Structured");
    assert_eq!(g.entries["zed"].definition(), "Z");
    assert_eq!(g.groups["core"].title, "Core");
    assert_eq!(g.entries.len(), 2);
}
