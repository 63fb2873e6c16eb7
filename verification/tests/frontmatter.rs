use std::collections::BTreeMap;

use tmark::frontmatter::{
    deprecated_key_target, FrontMatterError, GlossaryDecl, GlossaryEntry, GlossaryGroup,
};

#[test]
fn deprecated_keys_name_their_new_place() {
    assert_eq!(
        deprecated_key_target("press.callout_style").as_deref(),
        Some("press.callouts.style")
    );
    assert_eq!(
        deprecated_key_target("press.admonition_style").as_deref(),
        Some("press.callouts.style")
    );
    assert_eq!(
        deprecated_key_target("counters").as_deref(),
        Some("press.declare.counters")
    );
    assert_eq!(
        deprecated_key_target("bibliography").as_deref(),
        Some("press.sources.bibliography")
    );
    assert_eq!(
        deprecated_key_target("crossrefs").as_deref(),
        Some("press.sources.crossrefs")
    );
    assert_eq!(
        deprecated_key_target("acronyms").as_deref(),
        Some("press.declare.acronyms")
    );
    assert!(deprecated_key_target("title").is_none());
    assert!(deprecated_key_target("press.counters").is_none());
    assert!(deprecated_key_target("callout_style").is_none());
    assert!(deprecated_key_target("press.callout_styles").is_none());
}

#[test]
fn glossary_definitions_prefer_the_short_name() {
    let mut e = GlossaryEntry::default();
    assert_eq!(e.definition(), "");
    e.long = Some("Application Programming Interface".to_string());
    assert_eq!(e.definition(), "Application Programming Interface");
    e.description = Some("An interface".to_string());
    assert_eq!(e.definition(), "An interface");
    e.name = Some("API".to_string());
    assert_eq!(e.definition(), "API");
}

#[test]
fn an_empty_glossary_declares_nothing() {
    let mut g = GlossaryDecl::default();
    assert!(g.is_empty());
    g.style = Some("long".to_string());
    assert!(!g.is_empty());
    let mut g = GlossaryDecl::default();
    let mut groups = BTreeMap::new();
    groups.insert(
        "core".to_string(),
        GlossaryGroup {
            title: "Core terms".to_string(),
        },
    );
    g.groups = groups;
    assert!(!g.is_empty());
    let mut g = GlossaryDecl::default();
    g.entries.insert("api".to_string(), GlossaryEntry::default());
    assert!(!g.is_empty());
}

#[test]
fn errors_read_with_their_location() {
    let e = FrontMatterError::new("front matter must be a YAML mapping".to_string());
    assert_eq!(e.line, None);
    assert_eq!(e.to_text(), "front matter must be a YAML mapping");
    let e = FrontMatterError {
        message: "did not find expected node content".to_string(),
        line: Some(12),
        col: Some(7),
    };
    assert_eq!(e.to_text(), "12:7: did not find expected node content");
    let e = FrontMatterError {
        message: "m".to_string(),
        line: Some(3),
        col: None,
    };
    assert_eq!(e.to_text(), "m");
}
