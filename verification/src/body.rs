//! The indented body shared by the TMark admonition and definition
//! constructs, as decisions of a state machine.
//!
//! The body is the run of lines that follow the head line and are either
//! blank or indented by [`TAB_SIZE`] (spaces or a tab), the indent
//! stripped:
//!
//! ```markdown
//! > | !!! note "Title"
//! > |     first body line
//! > |
//! > |     second body paragraph
//! ```
//!
//! Each state reads the tokenizer's position (a [`Cursor`]) and answers
//! with a [`Step`]: the effects the tokenizer performs, in order, and the
//! state it goes to. The tokenizer that runs the steps lives with the
//! caller.

use vstd::prelude::*;
use crate::text::{NL, SPACE, TAB};

verus! {

/// The width of an indent: a body line starts after this many columns.
pub const TAB_SIZE: usize = 4;

/// The states of the body construct.
#[derive(Clone, Copy, Debug, PartialEq, Eq, Structural)]
pub enum BodyState {
    /// At a line break, or at the start of a body line after its indent.
    AtBreak,
    /// Inside a body line.
    Inside,
    /// At a line ending, looking for a further indented line.
    FurtherStart,
    /// At a line that is not indented enough.
    FurtherBegin,
    /// After the whitespace of a blank line.
    FurtherAfter,
}

/// Where the tokenizer goes: a state of the body, or the shared
/// space-or-tab construct.
#[derive(Clone, Copy, Debug, PartialEq, Eq, Structural)]
pub enum Target {
    /// A state of the body construct.
    Body(BodyState),
    /// Any run of spaces and tabs.
    SpaceOrTab,
    /// A run of spaces and tabs between `min` and `max` columns wide.
    SpaceOrTabMinMax(usize, usize),
}

/// What a state answers: success, failure, or a state to run, on the
/// current byte (`Retry`) or after it was consumed (`Next`).
#[derive(Clone, Copy, Debug, PartialEq, Eq, Structural)]
pub enum Next {
    Done,
    Fail,
    Retry(Target),
    Next(Target),
}

/// What the tokenizer does before it moves to the next state.
#[derive(Clone, Copy, Debug, PartialEq, Eq, Structural)]
pub enum Effect {
    /// Try what follows; go on with `ok` if it succeeds, `nok` if not.
    Attempt(Next, Next),
    /// Open the chunk token the enclosing construct chose for body lines.
    EnterChunk,
    /// Close that chunk token.
    ExitChunk,
    /// Open a line ending token.
    EnterLineEnding,
    /// Close a line ending token.
    ExitLineEnding,
    /// Consume the current byte.
    Consume,
}

/// What a state reads of the tokenizer: the current byte (`None` at the
/// end of input), and whether the current line is lazy or pierces a
/// container.
#[derive(Clone, Copy, Debug, PartialEq, Eq, Structural)]
pub struct Cursor {
    pub current: Option<u8>,
    pub lazy: bool,
    pub pierce: bool,
}

/// The effects of a state, in order, and where it goes.
#[derive(Clone, Debug, PartialEq, Eq)]
pub struct Step {
    pub effects: Vec<Effect>,
    pub next: Next,
}

/// At a line break, or at the start of a body line after its indent.
///
/// At the end of input the body is done; at a line feed the tokenizer
/// looks for a further line, coming back here if it finds one and ending
/// the body if not; anywhere else a body line starts.
pub fn at_break(cursor: &Cursor) -> (r: Step)
    ensures
        cursor.current is None ==> r.effects@ == Seq::<Effect>::empty() && r.next == Next::Done,
        cursor.current == Some(NL) ==> r.effects@ == seq![
            Effect::Attempt(Next::Next(Target::Body(BodyState::AtBreak)), Next::Done),
        ] && r.next == Next::Retry(Target::Body(BodyState::FurtherStart)),
        (cursor.current matches Some(b) && b != NL) ==> r.effects@ == seq![Effect::EnterChunk]
            && r.next == Next::Retry(Target::Body(BodyState::Inside)),
{
    match cursor.current {
        None => Step { effects: Vec::new(), next: Next::Done },
        Some(b) => {
            if b == NL {
                let mut effects = Vec::new();
                effects.push(
                    Effect::Attempt(Next::Next(Target::Body(BodyState::AtBreak)), Next::Done),
                );
                Step { effects, next: Next::Retry(Target::Body(BodyState::FurtherStart)) }
            } else {
                let mut effects = Vec::new();
                effects.push(Effect::EnterChunk);
                Step { effects, next: Next::Retry(Target::Body(BodyState::Inside)) }
            }
        },
    }
}

/// Inside a body line: the line ends at a line feed or at the end of
/// input, where the chunk closes; any other byte belongs to it.
pub fn inside(cursor: &Cursor) -> (r: Step)
    ensures
        (cursor.current is None || cursor.current == Some(NL)) ==> r.effects@ == seq![
            Effect::ExitChunk,
        ] && r.next == Next::Retry(Target::Body(BodyState::AtBreak)),
        (cursor.current matches Some(b) && b != NL) ==> r.effects@ == seq![Effect::Consume]
            && r.next == Next::Next(Target::Body(BodyState::Inside)),
{
    let mut effects = Vec::new();
    match cursor.current {
        Some(b) => {
            if b == NL {
                effects.push(Effect::ExitChunk);
                Step { effects, next: Next::Retry(Target::Body(BodyState::AtBreak)) }
            } else {
                effects.push(Effect::Consume);
                Step { effects, next: Next::Next(Target::Body(BodyState::Inside)) }
            }
        },
        None => {
            effects.push(Effect::ExitChunk);
            Step { effects, next: Next::Retry(Target::Body(BodyState::AtBreak)) }
        },
    }
}

/// At a line ending, looking for a further indented line (blank lines may
/// come between).
///
/// The line feed that closes the previous line is consumed as a line
/// ending, and the state runs again at the start of the next line, where
/// `lazy` and `pierce` describe that line: a lazy or piercing line ends
/// the body; any other must be indented by a full [`TAB_SIZE`], or be
/// blank.
pub fn further_start(cursor: &Cursor) -> (r: Step)
    ensures
        cursor.current == Some(NL) ==> r.effects@ == seq![
            Effect::EnterLineEnding,
            Effect::Consume,
            Effect::ExitLineEnding,
        ] && r.next == Next::Next(Target::Body(BodyState::FurtherStart)),
        cursor.current != Some(NL) && (cursor.lazy || cursor.pierce) ==> r.effects@
            == Seq::<Effect>::empty() && r.next == Next::Fail,
        cursor.current != Some(NL) && !cursor.lazy && !cursor.pierce ==> r.effects@ == seq![
            Effect::Attempt(Next::Done, Next::Next(Target::Body(BodyState::FurtherBegin))),
        ] && r.next == Next::Retry(Target::SpaceOrTabMinMax(TAB_SIZE, TAB_SIZE)),
{
    let mut effects = Vec::new();
    let at_nl = match cursor.current {
        Some(b) => b == NL,
        None => false,
    };
    if at_nl {
        effects.push(Effect::EnterLineEnding);
        effects.push(Effect::Consume);
        effects.push(Effect::ExitLineEnding);
        Step { effects, next: Next::Next(Target::Body(BodyState::FurtherStart)) }
    } else if cursor.lazy || cursor.pierce {
        Step { effects, next: Next::Fail }
    } else {
        effects.push(Effect::Attempt(Next::Done, Next::Next(Target::Body(BodyState::FurtherBegin))));
        Step { effects, next: Next::Retry(Target::SpaceOrTabMinMax(TAB_SIZE, TAB_SIZE)) }
    }
}

/// At a line that is not indented enough: only fine if blank, that is if
/// whitespace up to the line feed is all it holds.
pub fn further_begin(cursor: &Cursor) -> (r: Step)
    ensures
        (cursor.current == Some(TAB) || cursor.current == Some(SPACE)) ==> r.effects@ == seq![
            Effect::Attempt(Next::Next(Target::Body(BodyState::FurtherAfter)), Next::Fail),
        ] && r.next == Next::Retry(Target::SpaceOrTab),
        !(cursor.current == Some(TAB) || cursor.current == Some(SPACE)) ==> r.effects@
            == Seq::<Effect>::empty() && r.next == Next::Fail,
{
    let mut effects = Vec::new();
    let blank = match cursor.current {
        Some(b) => b == TAB || b == SPACE,
        None => false,
    };
    if blank {
        effects.push(
            Effect::Attempt(Next::Next(Target::Body(BodyState::FurtherAfter)), Next::Fail),
        );
        Step { effects, next: Next::Retry(Target::SpaceOrTab) }
    } else {
        Step { effects, next: Next::Fail }
    }
}

/// After the whitespace of a blank line: a line feed looks for a further
/// line; anything else ends the body.
pub fn further_after(cursor: &Cursor) -> (r: Step)
    ensures
        r.effects@ == Seq::<Effect>::empty(),
        cursor.current == Some(NL) ==> r.next == Next::Retry(Target::Body(BodyState::FurtherStart)),
        cursor.current != Some(NL) ==> r.next == Next::Fail,
{
    let at_nl = match cursor.current {
        Some(b) => b == NL,
        None => false,
    };
    if at_nl {
        Step { effects: Vec::new(), next: Next::Retry(Target::Body(BodyState::FurtherStart)) }
    } else {
        Step { effects: Vec::new(), next: Next::Fail }
    }
}

} // verus!
