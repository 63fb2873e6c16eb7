use tmark::structural::{is_absent, strip_identity, structural_json};
use tmark::keys::Json;

fn s(x: &str) -> Json {
    Json::Str(x.to_string())
}

fn n(x: &str) -> Json {
    Json::Number(x.to_string())
}

fn obj(entries: Vec<(&str, Json)>) -> Json {
    Json::Object(entries.into_iter().map(|(k, v)| (k.to_string(), v)).collect())
}

fn span(a: &str, b: &str) -> Json {
    Json::Array(vec![n("0"), n(a), n(b)])
}

#[test]
fn identity_spans_and_spellings_are_dropped() {
    let doc = obj(vec![
        ("file", n("0")),
        (
            "blocks",
            Json::Array(vec![
                obj(vec![
                    ("type", s("Header")),
                    ("id", n("1")),
                    ("span", span("0", "20")),
                    ("level", n("2")),
                    ("attrs", obj(vec![("id", s("sec:a")), ("id_span", span("4", "9"))])),
                    ("lead", Json::Null),
                ]),
                obj(vec![
                    ("type", s("Ref")),
                    ("id", n("2")),
                    ("span", span("21", "30")),
                    ("bracketed", Json::Bool(false)),
                    ("display", Json::Bool(false)),
                    ("title", s("")),
                    ("items", Json::Array(vec![Json::Null, obj(vec![])])),
                ]),
            ]),
        ),
        ("abbreviations", Json::Array(vec![])),
    ]);
    let expected = obj(vec![(
        "blocks",
        Json::Array(vec![
            obj(vec![
                ("type", s("Header")),
                ("level", n("2")),
                ("attrs", obj(vec![("id", s("sec:a"))])),
            ]),
            obj(vec![
                ("type", s("Ref")),
                ("display", Json::Bool(false)),
                ("items", Json::Array(vec![Json::Null, obj(vec![])])),
            ]),
        ]),
    )]);
    assert_eq!(structural_json(doc), expected);
}

#[test]
fn an_id_without_a_span_is_content() {
    let attrs = obj(vec![("id", s("x")), ("position", s("before"))]);
    assert_eq!(strip_identity(attrs), obj(vec![("id", s("x"))]));
    let node = obj(vec![("span", span("0", "1")), ("id", n("7"))]);
    assert_eq!(strip_identity(node), obj(vec![]));
}

#[test]
fn stripping_twice_changes_nothing() {
    let doc = obj(vec![
        ("a", obj(vec![("span", span("0", "1")), ("id", s("k")), ("b", obj(vec![("c", s(""))]))])),
        ("d", Json::Array(vec![s(""), obj(vec![("e", Json::Null)])])),
    ]);
    let once = strip_identity(doc);
    assert_eq!(once, obj(vec![("d", Json::Array(vec![s(""), obj(vec![])]))]));
    let again = strip_identity(obj(vec![("d", Json::Array(vec![s(""), obj(vec![])]))]));
    assert_eq!(again, once);
}

#[test]
fn absent_values() {
    assert!(is_absent(&Json::Null));
    assert!(is_absent(&s("")));
    assert!(is_absent(&Json::Array(vec![])));
    assert!(is_absent(&obj(vec![])));
    assert!(!is_absent(&Json::Bool(false)));
    assert!(!is_absent(&n("0")));
    assert!(!is_absent(&s(" ")));
}

#[test]
fn scalars_and_lists_keep_their_shape() {
    assert_eq!(strip_identity(n("3")), n("3"));
    assert_eq!(strip_identity(s("")), s(""));
    assert_eq!(structural_json(Json::Array(vec![Json::Null])), Json::Array(vec![Json::Null]));
}
