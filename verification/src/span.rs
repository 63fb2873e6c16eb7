//! Identity and source positions: files, nodes and byte spans.

use vstd::prelude::*;

verus! {

/// A source file of a parse.
#[derive(Clone, Copy, Debug, Default, PartialEq, Eq, Hash, Structural)]
pub struct FileId(pub u32);

/// A node of a document, numbered densely in document order.
#[derive(Clone, Copy, Debug, Default, PartialEq, Eq, Hash, Structural)]
pub struct NodeId(pub u32);

/// A byte range of a file.
#[derive(Clone, Copy, Debug, Default, PartialEq, Eq, Hash, Structural)]
pub struct Span {
    pub file: FileId,
    pub start: u32,
    pub end: u32,
}

impl Span {
    pub fn new(file: FileId, start: u32, end: u32) -> (r: Span)
        ensures
            r == (Span { file, start, end }),
    {
        Span { file, start, end }
    }
}

/// The span of a part of a node (a key, an id), kept apart from the
/// node's own span.
#[derive(Clone, Copy, Debug, Default, PartialEq, Eq, Hash, Structural)]
pub struct SubSpan(pub Span);

impl SubSpan {
    pub fn new(file: FileId, start: u32, end: u32) -> (r: SubSpan)
        ensures
            r == SubSpan(Span { file, start, end }),
    {
        SubSpan(Span { file, start, end })
    }
}

} // verus!
