use tmark::attrs::Attrs;
use tmark::block::{
    abbreviations, drop_snippet_escape, html_selector, markdown_tag, math_head, shift_stops,
    take_partial_task, trailing_attrs,
};
use tmark::node::Task;

fn attrs(id: Option<&str>, classes: &[&str], kv: &[(&str, &str)]) -> Attrs {
    let mut a = Attrs::new();
    a.id = id.map(str::to_string);
    a.classes = classes.iter().map(|c| c.to_string()).collect();
    a.kv = kv.iter().map(|(k, v)| (k.to_string(), v.to_string())).collect();
    a
}

#[test]
fn stops_follow_the_dropped_prefix() {
    assert_eq!(
        shift_stops(&[(0, 10), (5, 20), (9, 30)], 6),
        vec![(0, 21), (3, 30)]
    );
    assert_eq!(shift_stops(&[(0, 10), (4, 40)], 0), vec![(0, 10), (4, 40)]);
    assert_eq!(shift_stops(&[(0, 10)], 3), vec![(0, 13)]);
    assert_eq!(shift_stops(&[], 3), vec![]);
}

#[test]
fn math_on_the_fence_line() {
    assert_eq!(math_head("$$ x^2\n y\n$$"), "x^2");
    assert_eq!(math_head("  $$$ a \n"), "a");
    assert_eq!(math_head("$$\nx\n$$"), "");
    assert_eq!(math_head("$$ {#eq:x}\nx\n$$"), "");
    assert_eq!(math_head("$$ {a} + b\n$$"), "{a} + b");
}

#[test]
fn abbreviation_lines() {
    assert_eq!(
        abbreviations("*[HTML]: Hyper Text\n  *[W3C]:  World Wide\r\n"),
        Some(vec![
            (0, 19, "HTML".to_string(), "Hyper Text".to_string()),
            (22, 19, "W3C".to_string(), "World Wide".to_string()),
        ])
    );
    assert_eq!(
        abbreviations("*[a b]:x"),
        Some(vec![(0, 8, "a b".to_string(), "x".to_string())])
    );
    assert_eq!(abbreviations("*[]: x"), None);
    assert_eq!(abbreviations("*[a]b]: x"), None);
    assert_eq!(abbreviations("*[a]: x\nplain text"), None);
    assert_eq!(abbreviations(""), None);
}

#[test]
fn markdown_in_html_opening_tags() {
    assert_eq!(
        markdown_tag("<div markdown>"),
        Some(("div".to_string(), Attrs::new()))
    );
    assert_eq!(
        markdown_tag("  <DIV class=\"a  b\" id=x data-k='v' markdown=\"1\">  "),
        Some(("div".to_string(), attrs(Some("x"), &["a", "b"], &[("data-k", "v")])))
    );
    assert_eq!(
        markdown_tag("<section Hidden markdown/>"),
        Some(("section".to_string(), attrs(None, &[], &[("hidden", "")])))
    );
    assert_eq!(markdown_tag("<div class=\"a\">"), None);
    assert_eq!(markdown_tag("<1div markdown>"), None);
    assert_eq!(markdown_tag("<div a=\"x markdown>"), None);
    assert_eq!(markdown_tag("<div markdown"), None);
    assert_eq!(markdown_tag("<div @ markdown>"), None);
}

#[test]
fn html_fence_selectors() {
    assert_eq!(
        html_selector("html | div.note#x[title='A b'][ hidden ][class=\"c d\"]"),
        Some((
            "div".to_string(),
            attrs(Some("x"), &["note", "c", "d"], &[("title", "A b"), ("hidden", "")])
        ))
    );
    assert_eq!(
        html_selector("  html|Section  "),
        Some(("section".to_string(), Attrs::new()))
    );
    assert_eq!(
        html_selector("html | p[DATA-X=y]"),
        Some(("p".to_string(), attrs(None, &[], &[("data-x", "y")])))
    );
    assert_eq!(html_selector("html"), None);
    assert_eq!(html_selector("html | "), None);
    assert_eq!(html_selector("html | 9p"), None);
    assert_eq!(html_selector("html | div%x"), None);
    assert_eq!(html_selector("html | div[x"), None);
    assert_eq!(html_selector("htm | div"), None);
}

#[test]
fn html_selector_refuses_a_group_that_starts_non_ascii() {
    assert_eq!(html_selector("html | divé"), None);
    assert_eq!(html_selector("html | div.aé#x"), Some(("div".to_string(), attrs(Some("x"), &["aé"], &[]))));
}

#[test]
fn the_snippet_escape_is_dropped_after_the_indent() {
    let mut text = "  ;--8<-- \"a.md\"".to_string();
    drop_snippet_escape(&mut text);
    assert_eq!(text, "  --8<-- \"a.md\"");
    let mut plain = "x;y".to_string();
    drop_snippet_escape(&mut plain);
    assert_eq!(plain, "x;y");
    let mut unicode = "\u{a0};é".to_string();
    drop_snippet_escape(&mut unicode);
    assert_eq!(unicode, "\u{a0}é");
}

#[test]
fn partial_tasks_lose_their_mark() {
    let mut text = "[.] half done".to_string();
    assert_eq!(take_partial_task(&mut text), Some(Task::Partial));
    assert_eq!(text, "half done");
    let mut other = "[x] done".to_string();
    assert_eq!(take_partial_task(&mut other), None);
    assert_eq!(other, "[x] done");
    let mut bare = "[.]".to_string();
    assert_eq!(take_partial_task(&mut bare), None);
}

#[test]
fn a_trailing_literal_list_is_an_attribute_list() {
    let a = trailing_attrs("{.epigraph #q}  \n").unwrap();
    assert_eq!(a.classes, vec!["epigraph".to_string()]);
    assert_eq!(a.id.as_deref(), Some("q"));
    assert_eq!(a.id_span, None);
    assert!(trailing_attrs("{}").is_none());
    assert!(trailing_attrs("text {.x}").is_none());
    assert!(trailing_attrs("{bare word}").is_none());
}
