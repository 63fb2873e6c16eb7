# tmark

The text-level core of TMark, a Markdown dialect for technical documents,
as a Verus library: every function in `src/` carries a contract that Verus
proves, but for the few `#[verifier::external_body]` wrappers around calls
into std and outside crates, whose contracts are trusted (UTF-8 decoding,
`char::is_alphanumeric`, the YAML reader and its errors, the JSON text
of a value, the emoji table).

Emoji shortcodes are looked up in the gemoji table that the `emojis` crate
ships (`emojis::get_by_shortcode`).

## Layout

- `src/text.rs`, `src/span.rs`, `src/scan.rs`: bytes, UTF-8 boundaries,
  whitespace, spans, and the byte predicates the constructs share.
- `src/head.rs`: attribute lists, role heads, reference items, fence,
  container and admonition info strings; `src/readback.rs` proves that the
  canonical text of an attribute list reads back as the list.
- `src/body.rs`: the state machine that decides where a TMark container
  body breaks.
- `src/sugar.rs`, `src/lower.rs`, `src/block.rs`: the pieces of the
  lowering that decide on text alone (shortcodes, reference-style links,
  alignment of decoded text with its source, abbreviations, the opening tag
  of a Markdown-in-HTML block, the selector of an HTML fence, ...).
- `src/lowerer.rs`: the lowering state: dense node ids, diagnostics,
  counter prefixes and admonition kinds.
- `src/source.rs`: source positions and what the lowering reads of a
  node's own text (its first and last line, where a fence body or an info
  string sits in it, where a table cell is spelled).
- `src/keys.rs`, `src/frontmatter.rs`: the YAML front matter read from its
  text and its keys sorted (`press` wins over the root, deprecated
  spellings move to their canonical group), and the typed pieces of the
  front matter; `src/glossary.rs`: the glossary declaration read out of
  either of its spellings.
- `src/out.rs`, `src/fmt.rs`, `src/mkdocs.rs`: the printer's output buffer
  and the spellings it decides from a node alone, including the MkDocs
  profile and its block order; `src/refback.rs` proves that a printed
  citation reads back as its items.
- `src/structural.rs`: the structural form of a document's JSON, without
  identity, spans and spelling fields.
- `src/refs.rs`, `src/diag.rs`: reference resolution and diagnostics.
- `app/`: the serde side of the front matter (sorted keys in, typed keys
  out) and the progress bar, whose value is a float.
