//! TMark lexical layer: byte-level scanners, head parsers and the small
//! printers of the TMark Markdown dialect, with their behaviour stated as
//! Verus contracts.

pub mod text;
pub mod span;
pub mod scan;
pub mod body;
pub mod attrs;
pub mod node;
pub mod head;
pub mod sugar;
pub mod frontmatter;
pub mod out;
pub mod fmt;
pub mod mkdocs;
pub mod lower;
pub mod diag;
pub mod refs;
pub mod block;
pub mod readback;
pub mod lowerer;
pub mod keys;
pub mod source;
pub mod structural;
pub mod refback;
pub mod glossary;
