use tmark::node::{Code, Meta, Str};
use tmark::span::{FileId, NodeId, Span};

fn meta(id: u32, start: u32, end: u32) -> Meta {
    Meta::new(NodeId(id), Span::new(FileId(0), start, end))
}

#[test]
fn equality_ignores_meta() {
    let a = Str { meta: meta(1, 0, 5), text: "hello".to_string() };
    let b = Str { meta: meta(99, 0, 1), text: "hello".to_string() };
    assert_eq!(a, b);
    assert!(!a.meta.same(&b.meta));
    assert!(a.meta.same(&meta(1, 0, 5)));
    let c = Str { meta: meta(1, 0, 5), text: "world".to_string() };
    assert_ne!(a, c);
    let x = Code { meta: meta(2, 3, 9), text: "x".to_string(), lang: None };
    let y = Code { meta: meta(3, 0, 0), text: "x".to_string(), lang: None };
    assert_eq!(x, y);
    assert_ne!(x, Code { lang: Some("rust".to_string()), ..y.clone() });
}
