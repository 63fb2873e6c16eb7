use tmark::body::{
    at_break, further_after, further_begin, further_start, inside, BodyState, Cursor, Effect,
    Next, Target, TAB_SIZE,
};

fn at(current: Option<u8>) -> Cursor {
    Cursor {
        current,
        lazy: false,
        pierce: false,
    }
}

#[test]
fn a_body_line_is_one_chunk() {
    let s = at_break(&at(Some(b'a')));
    assert_eq!(s.effects, vec![Effect::EnterChunk]);
    assert_eq!(s.next, Next::Retry(Target::Body(BodyState::Inside)));
    let s = inside(&at(Some(b'a')));
    assert_eq!(s.effects, vec![Effect::Consume]);
    assert_eq!(s.next, Next::Next(Target::Body(BodyState::Inside)));
    let s = inside(&at(Some(b'\n')));
    assert_eq!(s.effects, vec![Effect::ExitChunk]);
    assert_eq!(s.next, Next::Retry(Target::Body(BodyState::AtBreak)));
    let s = inside(&at(None));
    assert_eq!(s.effects, vec![Effect::ExitChunk]);
}

#[test]
fn the_end_of_input_ends_the_body() {
    let s = at_break(&at(None));
    assert!(s.effects.is_empty());
    assert_eq!(s.next, Next::Done);
}

#[test]
fn a_line_feed_looks_for_a_further_line() {
    let s = at_break(&at(Some(b'\n')));
    assert_eq!(
        s.effects,
        vec![Effect::Attempt(
            Next::Next(Target::Body(BodyState::AtBreak)),
            Next::Done
        )]
    );
    assert_eq!(s.next, Next::Retry(Target::Body(BodyState::FurtherStart)));
    let s = further_start(&at(Some(b'\n')));
    assert_eq!(
        s.effects,
        vec![Effect::EnterLineEnding, Effect::Consume, Effect::ExitLineEnding]
    );
    assert_eq!(s.next, Next::Next(Target::Body(BodyState::FurtherStart)));
}

#[test]
fn a_further_line_is_indented_or_blank() {
    let s = further_start(&at(Some(b' ')));
    assert_eq!(
        s.effects,
        vec![Effect::Attempt(
            Next::Done,
            Next::Next(Target::Body(BodyState::FurtherBegin))
        )]
    );
    assert_eq!(s.next, Next::Retry(Target::SpaceOrTabMinMax(TAB_SIZE, TAB_SIZE)));
    assert_eq!(TAB_SIZE, 4);
    let s = further_begin(&at(Some(b'\t')));
    assert_eq!(s.next, Next::Retry(Target::SpaceOrTab));
    assert_eq!(
        s.effects,
        vec![Effect::Attempt(
            Next::Next(Target::Body(BodyState::FurtherAfter)),
            Next::Fail
        )]
    );
    assert_eq!(further_begin(&at(Some(b'x'))).next, Next::Fail);
    assert_eq!(
        further_after(&at(Some(b'\n'))).next,
        Next::Retry(Target::Body(BodyState::FurtherStart))
    );
    assert_eq!(further_after(&at(Some(b'x'))).next, Next::Fail);
    assert_eq!(further_after(&at(None)).next, Next::Fail);
}

#[test]
fn a_lazy_or_piercing_line_ends_the_body() {
    let lazy = Cursor {
        current: Some(b' '),
        lazy: true,
        pierce: false,
    };
    assert_eq!(further_start(&lazy).next, Next::Fail);
    let pierce = Cursor {
        current: Some(b'a'),
        lazy: false,
        pierce: true,
    };
    assert_eq!(further_start(&pierce).next, Next::Fail);
    // At the line feed itself the flags still describe the closed line.
    let closing = Cursor {
        current: Some(b'\n'),
        lazy: true,
        pierce: true,
    };
    assert_eq!(
        further_start(&closing).next,
        Next::Next(Target::Body(BodyState::FurtherStart))
    );
}
