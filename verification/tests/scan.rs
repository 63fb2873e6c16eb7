use tmark::scan::{
    is_foreign_directive, is_ident_byte, is_ident_start, line_end, looks_like_attributes,
    math_closes_line, word_char_before,
};

#[test]
fn identifier_bytes() {
    assert!(is_ident_start(b'a') && is_ident_start(b'Z'));
    assert!(!is_ident_start(b'1') && !is_ident_start(b'_'));
    assert!(is_ident_byte(b'1') && is_ident_byte(b'_') && is_ident_byte(b'-'));
    assert!(!is_ident_byte(b'.') && !is_ident_byte(b':'));
}

#[test]
fn attribute_lists_are_recognised() {
    assert!(looks_like_attributes(b"{#id}", 0));
    assert!(looks_like_attributes(b"{.c}", 0));
    assert!(looks_like_attributes(b"{: .c}", 0), "the deprecated colon");
    assert!(looks_like_attributes(b"{ \tk=v}", 0));
    assert!(looks_like_attributes(b"x{#a}", 1));
    assert!(!looks_like_attributes(b"x{#a}", 0));
    assert!(!looks_like_attributes(b"{ k = v}", 0), "no blank before `=`");
    assert!(!looks_like_attributes(b"{#}", 0));
    assert!(!looks_like_attributes(b"{# x}", 0));
    assert!(!looks_like_attributes(b"{#", 0));
    assert!(!looks_like_attributes(b"{key}", 0));
    assert!(!looks_like_attributes(b"{", 0));
    assert!(!looks_like_attributes(b"{#a}", 9));
}

#[test]
fn foreign_directives() {
    assert!(is_foreign_directive(b":::: a.b\n", 0));
    assert!(is_foreign_directive(b"::: a.b  ", 0));
    assert!(is_foreign_directive(b"::: a.b.c-d_e", 0));
    assert!(is_foreign_directive(b"x\n:::a.b\ny", 2));
    assert!(!is_foreign_directive(b"::: ab", 0), "a dotted name");
    assert!(!is_foreign_directive(b":: a.b", 0), "three colons");
    assert!(!is_foreign_directive(b"::: 1a.b", 0));
    assert!(!is_foreign_directive(b"::: a.b c", 0));
    assert!(!is_foreign_directive(b"::: a..b", 0));
    assert!(!is_foreign_directive(b"::: a.", 0));
    assert!(!is_foreign_directive(b"::: a.b", 20));
}

#[test]
fn line_ends() {
    assert_eq!(line_end(b"ab\ncd", 0), 2);
    assert_eq!(line_end(b"ab\ncd", 2), 2);
    assert_eq!(line_end(b"ab\ncd", 3), 5);
    assert_eq!(line_end(b"", 0), 0);
    assert_eq!(line_end(b"ab", 5), 5);
}

#[test]
fn display_math_closing_a_content_line() {
    assert!(math_closes_line(b"x $$", 2, 2, false));
    assert!(math_closes_line(b"x $$$ \t", 2, 2, false));
    assert!(!math_closes_line(b"$$", 0, 2, false), "nothing before");
    assert!(!math_closes_line(b"  $$", 2, 2, false), "only blanks before");
    assert!(!math_closes_line(b"a\n$$", 2, 2, false), "alone on its line");
    assert!(math_closes_line(b"a$$ {#eq:x}", 1, 2, true));
    assert!(math_closes_line(b"a$$ {#eq:x}  \nb", 1, 2, true));
    assert!(!math_closes_line(b"a$$ {#eq:x}", 1, 2, false));
    assert!(!math_closes_line(b"a$$ {#eq:x} y", 1, 2, true));
    assert!(!math_closes_line(b"a$ ", 1, 2, false), "too few dollars");
    assert!(!math_closes_line(b"a$$ b", 1, 2, false));
}

#[test]
fn word_characters_before_a_sigil() {
    let text = "a@b §@c _@d é@e (@f @g 2@h";
    let at = |needle: &str| text.find(needle).unwrap() + needle.len() - 1;
    assert!(word_char_before(text, at("a@")));
    assert!(!word_char_before(text, at("§@")));
    assert!(word_char_before(text, at("_@")));
    assert!(word_char_before(text, at("é@")));
    assert!(!word_char_before(text, at("(@")));
    assert!(!word_char_before(text, at(" @")));
    assert!(word_char_before(text, at("2@")));
    assert!(!word_char_before(text, 0));
}
