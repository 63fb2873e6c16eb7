use tmark::sugar::{reference_link, reference_tail, shortcode, Reference, Shortcode};

#[test]
fn shortcodes() {
    assert!(matches!(
        shortcode(":smile: x", 0),
        Some((7, Shortcode::Emoji("\u{1f604}")))
    ));
    assert!(matches!(
        shortcode("a :+1:", 2),
        Some((4, Shortcode::Emoji(_)))
    ));
    assert!(matches!(
        shortcode(":material-cog:", 0),
        Some((14, Shortcode::Icon))
    ));
    assert!(shortcode("12:30:45", 2).is_none());
    assert!(shortcode("a:b:c", 1).is_none());
    assert!(shortcode(":nope-not-an-emoji:", 0).is_none());
    assert!(shortcode(":Smile:", 0).is_none());
    assert!(shortcode("note: text:", 4).is_none());
}

#[test]
fn reference_style_links() {
    assert_eq!(
        reference_link("[Plus haut][opengl-coordinates], voir", 0),
        Some(Reference {
            len: 31,
            text: 1..10,
            id: "opengl-coordinates".to_string(),
        })
    );
    assert_eq!(
        reference_link("see [the trace][fig:trace] there", 4),
        Some(Reference {
            len: 22,
            text: 5..14,
            id: "fig:trace".to_string(),
        })
    );
    // Brackets inside the text nest.
    assert_eq!(
        reference_link("[a [b] c][id]", 0).map(|r| r.id),
        Some("id".to_string())
    );
    // Not references: a wiki link, a footnote, an empty text, a
    // collapsed or shortcut form, an id that is not an identifier, a
    // text running over a line.
    assert!(reference_link("[[page]] and", 0).is_none());
    assert!(reference_link("[[page]] and", 1).is_none());
    assert!(reference_link("[^note][id]", 0).is_none());
    assert!(reference_link("[][id]", 0).is_none());
    assert!(reference_link("[text][]", 0).is_none());
    assert!(reference_link("[text] and", 0).is_none());
    assert!(reference_link("[text][an id]", 0).is_none());
    assert!(reference_link("[text][-id]", 0).is_none());
    assert!(reference_link("[a\nb][id]", 0).is_none());
    assert!(reference_link("![alt][id]", 1).is_none());
}

#[test]
fn shortcode_neighbours_are_unicode_aware() {
    // An accented letter before the colon is a word character.
    assert!(shortcode("é:smile:", 2).is_none());
    // A non-word character after the closing colon is fine.
    assert!(matches!(shortcode(":smile:!", 0), Some((7, Shortcode::Emoji(_)))));
    assert!(shortcode(":smile:é", 0).is_none());
    assert!(matches!(shortcode(":octicons-mark-github-16:", 0), Some((25, Shortcode::Icon))));
    assert!(shortcode("::", 0).is_none());
}

#[test]
fn reference_tails() {
    assert_eq!(reference_tail("][fig:a.b-c] x"), Some(("fig:a.b-c".to_string(), 12)));
    assert_eq!(reference_tail("][id]"), Some(("id".to_string(), 5)));
    assert!(reference_tail("][]").is_none());
    assert!(reference_tail("][a::b]").is_none());
    assert!(reference_tail("][1x:b]").is_none(), "a prefix starts with a letter");
    assert!(reference_tail("][a:]").is_none());
    assert!(reference_tail("[id]").is_none());
    assert!(reference_tail("][id").is_none());
}
