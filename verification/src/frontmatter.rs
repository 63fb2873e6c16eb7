//! The typed pieces of the YAML front matter that the library reads: the
//! authors, the epigraph, the declarations of counters, admonitions and
//! glossary terms, the error a front matter that cannot be read gives,
//! and the table of deprecated key spellings.

use std::collections::BTreeMap;
use vstd::prelude::*;
use vstd::string::*;
use vstd::utf8::*;
use crate::text::{owned, push_range, range_eq, string_of, has_at};

use crate::keys::{sort_keys, sorted_from, Json, Sorted};
use crate::structural::{model, JsonModel};

verus! {

broadcast use vstd::utf8::encode_utf8_valid_utf8, vstd::utf8::valid_utf8_concat;

/// `authors: [{name, affiliation}]`. A bare string item
/// (`authors: [Ada Lovelace]`) is the name alone.
#[derive(Clone, Debug, Default, PartialEq)]
pub struct Author {
    pub name: String,
    pub affiliation: Option<String>,
    pub email: Option<String>,
}

/// `epigraph: {quote, source}`, the document's epigraph as plain text.
/// The key says what the epigraph is, never where it goes.
#[derive(Clone, Debug, Default, PartialEq)]
pub struct Epigraph {
    pub quote: String,
    pub source: Option<String>,
}

/// A user-declared (or overridden) counter.
#[derive(Clone, Debug, Default, PartialEq)]
pub struct CounterDecl {
    /// Label word, used in references and diagnostics.
    pub name: Option<String>,
    /// Python format string over `n`, `prefix`, `key`; default `"{n}"`.
    pub format: Option<String>,
    pub start: Option<u32>,
    /// The numbering scope, as the front matter names it (`document`, …).
    pub scope: Option<String>,
    /// Template a reference renders, with `{name}` and `{number}` fields.
    pub reference: Option<String>,
}

/// A declared admonition type.
#[derive(Clone, Debug, Default, PartialEq)]
pub struct AdmonitionDecl {
    pub name: Option<String>,
    /// Section title under the `reference` strategy.
    pub group: Option<String>,
    /// Text of the "See page N" link, with a `{page}` field.
    pub reference: Option<String>,
    /// Counter prefix of a theorem-type admonition.
    pub counter: Option<String>,
}

/// The glossary declaration, `declare.glossary`. Two spellings reach this
/// one struct: a flat mapping of term to definition, and the structured
/// one that names its parts (`style`, `groups`, `entries`).
#[derive(Clone, Debug, Default, PartialEq)]
pub struct GlossaryDecl {
    /// A `glossaries`-package style name (`long`, `altlist`, …).
    pub style: Option<String>,
    /// Group key to its heading; a template prints one table per group.
    pub groups: BTreeMap<String, GlossaryGroup>,
    /// The terms, whichever spelling declared them.
    pub entries: BTreeMap<String, GlossaryEntry>,
}

impl GlossaryDecl {
    /// Whether the declaration declares nothing: no style, no group, no
    /// term.
    pub fn is_empty(&self) -> (r: bool)
        ensures
            r == (self.style is None && self.groups@.is_empty() && self.entries@.is_empty()),
    {
        self.style.is_none() && self.groups.is_empty() && self.entries.is_empty()
    }
}

/// A glossary group: `core: Core terms` or `core: {title: Core terms}`.
#[derive(Clone, Debug, Default, PartialEq)]
pub struct GlossaryGroup {
    pub title: String,
}

/// A glossary term. `api: An interface` sets `description`; the object
/// form takes `name` (the short form), `description`, `long` and the
/// `group` the entry belongs to.
#[derive(Clone, Debug, Default, PartialEq)]
pub struct GlossaryEntry {
    pub name: Option<String>,
    pub description: Option<String>,
    /// The expanded form of an acronym, when it differs from the
    /// description.
    pub long: Option<String>,
    /// Key of the `groups` entry this term is listed under.
    pub group: Option<String>,
}

/// What a glossary term resolves to: the short name, else the
/// description, else the long form, else nothing.
pub open spec fn definition_of(e: GlossaryEntry) -> Seq<char> {
    match e.name {
        Some(n) => n@,
        None => match e.description {
            Some(d) => d@,
            None => match e.long {
                Some(l) => l@,
                None => Seq::empty(),
            },
        },
    }
}

impl GlossaryEntry {
    /// What `@gls:term` resolves to: the short `name`, else the
    /// description, else the long form.
    pub fn definition(&self) -> (r: &str)
        ensures
            r@ == definition_of(*self),
    {
        match &self.name {
            Some(n) => n.as_str(),
            None => match &self.description {
                Some(d) => d.as_str(),
                None => match &self.long {
                    Some(l) => l.as_str(),
                    None => {
                        proof {
                            reveal_strlit("");
                        }
                        ""
                    },
                },
            },
        }
    }
}

/// Why the front matter could not be read. The caller reports it and
/// keeps the raw text.
#[derive(Clone, Debug, PartialEq, Eq)]
pub struct FrontMatterError {
    pub message: String,
    /// 1-based line and column inside the raw text, when the YAML parser
    /// knows them.
    pub line: Option<u32>,
    pub col: Option<u32>,
}

/// The decimal digits of `n`.
pub open spec fn decimal(n: nat) -> Seq<u8>
    decreases n,
{
    if n < 10 {
        seq![(0x30 + n) as u8]
    } else {
        decimal(n / 10) + seq![(0x30 + n % 10) as u8]
    }
}

proof fn lemma_decimal_ascii(n: nat)
    ensures
        forall|k: int| 0 <= k < decimal(n).len() ==> #[trigger] decimal(n)[k] < 0x80,
        decimal(n).len() >= 1,
    decreases n,
{
    if n >= 10 {
        lemma_decimal_ascii(n / 10);
    }
}

/// Appends the decimal digits of `n`.
fn push_decimal(out: &mut Vec<u8>, n: u32)
    ensures
        final(out)@ == old(out)@ + decimal(n as nat),
    decreases n,
{
    if n >= 10 {
        push_decimal(out, n / 10);
    }
    let d: u8 = (n % 10) as u8;
    out.push(0x30 + d);
    proof {
        if n >= 10 {
            assert(final(out)@ =~= old(out)@ + decimal(n as nat));
        } else {
            assert(final(out)@ =~= old(out)@ + decimal(n as nat));
        }
    }
}

/// How an error reads: `line:col: message` when both are known, the
/// message alone otherwise.
pub open spec fn error_text(e: FrontMatterError) -> Seq<u8> {
    match (e.line, e.col) {
        (Some(l), Some(c)) => decimal(l as nat) + seq![0x3au8] + decimal(c as nat) + seq![
            0x3au8,
            0x20u8,
        ] + owned(e.message),
        _ => owned(e.message),
    }
}

/// `serde_yaml_ng::Error`, the error of the YAML reader.
#[verifier::external_type_specification]
#[verifier::external_body]
pub struct ExYamlError(serde_yaml_ng::Error);

/// `serde_yaml_ng::Location`, where the YAML reader met an error.
#[verifier::external_type_specification]
#[verifier::external_body]
pub struct ExYamlLocation(serde_yaml_ng::Location);

/// The text of a YAML error, as its `Display` writes it.
pub uninterp spec fn yaml_text(e: serde_yaml_ng::Error) -> Seq<char>;

/// Where a YAML error sits, when the reader knows.
pub uninterp spec fn yaml_where(e: serde_yaml_ng::Error) -> Option<serde_yaml_ng::Location>;

/// The line of a location.
pub uninterp spec fn line_of(l: serde_yaml_ng::Location) -> usize;

/// The column of a location.
pub uninterp spec fn column_of(l: serde_yaml_ng::Location) -> usize;

/// Calls the `Display` of `serde_yaml_ng::Error` (through `to_string`):
/// the error's message, a function of the error alone.
#[verifier::external_body]
fn yaml_message(e: &serde_yaml_ng::Error) -> (r: String)
    ensures
        r@ == yaml_text(*e),
{
    e.to_string()
}

/// Calls `serde_yaml_ng::Error::location`: where the error sits, when the
/// reader knows, a function of the error alone.
#[verifier::external_body]
fn yaml_location(e: &serde_yaml_ng::Error) -> (r: Option<serde_yaml_ng::Location>)
    ensures
        r == yaml_where(*e),
{
    e.location()
}

/// Calls `serde_yaml_ng::Location::line`, a field getter: the line of an
/// error (1 for the first line).
#[verifier::external_body]
fn location_line(l: &serde_yaml_ng::Location) -> (r: usize)
    ensures
        r == line_of(*l),
{
    l.line()
}

/// Calls `serde_yaml_ng::Location::column`, a field getter: the column of
/// an error (1 for the first column).
#[verifier::external_body]
fn location_column(l: &serde_yaml_ng::Location) -> (r: usize)
    ensures
        r == column_of(*l),
{
    l.column()
}

/// The error made of a YAML error: its text, and its line and column
/// when the reader knows where it sits.
pub open spec fn from_yaml_spec(err: serde_yaml_ng::Error, r: FrontMatterError) -> bool {
    &&& r.message@ == yaml_text(err)
    &&& match yaml_where(err) {
        Some(l) => r.line == Some(line_of(l) as u32) && r.col == Some(column_of(l) as u32),
        None => r.line is None && r.col is None,
    }
}

impl FrontMatterError {
    /// The error of a front matter the YAML reader refused: its message,
    /// with its line and column when the reader knows them.
    pub fn from_yaml(err: serde_yaml_ng::Error) -> (r: FrontMatterError)
        ensures
            from_yaml_spec(err, r),
    {
        let message = yaml_message(&err);
        match yaml_location(&err) {
            Some(l) => {
                let line = location_line(&l);
                let col = location_column(&l);
                FrontMatterError { message, line: Some(line as u32), col: Some(col as u32) }
            },
            None => FrontMatterError { message, line: None, col: None },
        }
    }

    /// An error with a message and no location.
    pub fn new(message: String) -> (r: FrontMatterError)
        ensures
            r.message == message,
            r.line is None,
            r.col is None,
    {
        FrontMatterError { message, line: None, col: None }
    }

    /// The error as a line of text: `line:col: message` when the location
    /// is known.
    pub fn to_text(&self) -> (r: String)
        ensures
            owned(r) == error_text(*self),
    {
        match (self.line, self.col) {
            (Some(l), Some(c)) => {
                let mut out: Vec<u8> = Vec::new();
                push_decimal(&mut out, l);
                out.push(0x3a);
                push_decimal(&mut out, c);
                out.push(0x3a);
                out.push(0x20);
                let m = self.message.as_str().as_bytes();
                let ghost head = out@;
                push_range(&mut out, m, 0, m.len());
                proof {
                    lemma_decimal_ascii(l as nat);
                    lemma_decimal_ascii(c as nat);
                    assert(m@.subrange(0, m@.len() as int) =~= m@);
                    assert(head =~= decimal(l as nat) + seq![0x3au8] + decimal(c as nat) + seq![
                        0x3au8,
                        0x20u8,
                    ]);
                    crate::text::lemma_ascii_valid(head);
                    assert(out@ =~= head + m@);
                }
                string_of(out)
            },
            _ => self.message.clone(),
        }
    }
}

/// The group a deprecated top-level key moved to: `sources` for
/// `bibliography` and `crossrefs`, `declare` for `counters`,
/// `admonitions`, `glossary` and `acronyms`.
pub open spec fn deprecated_group(k: Seq<u8>) -> Option<Seq<u8>> {
    if k == "bibliography".spec_bytes() || k == "crossrefs".spec_bytes() {
        Some("sources".spec_bytes())
    } else if k == "counters".spec_bytes() || k == "admonitions".spec_bytes() || k
        == "glossary".spec_bytes() || k == "acronyms".spec_bytes() {
        Some("declare".spec_bytes())
    } else {
        None
    }
}

/// The dotted path a deprecated key moved to: `press.<group>.<key>` for a
/// deprecated top-level key, `press.callouts.style` for the deprecated
/// `press.callout_style` and `press.admonition_style`.
pub open spec fn deprecated_target_spec(k: Seq<u8>) -> Option<Seq<u8>> {
    match deprecated_group(k) {
        Some(g) => Some("press.".spec_bytes() + g + ".".spec_bytes() + k),
        None => {
            let p = "press.".spec_bytes();
            if has_at(k, 0, p) && (k.subrange(p.len() as int, k.len() as int)
                == "callout_style".spec_bytes() || k.subrange(p.len() as int, k.len() as int)
                == "admonition_style".spec_bytes()) {
                Some("press.callouts.style".spec_bytes())
            } else {
                None
            }
        },
    }
}

/// Every deprecated top-level key names, as its new place, the group the
/// key sorting moves it into: `press.sources.<key>` for the keys moved
/// into `sources`, `press.declare.<key>` for those moved into `declare`.
pub proof fn lemma_deprecated_targets_follow_sorting()
    ensures
        forall|i: int|
            0 <= i < crate::keys::sources_moved().len() ==> deprecated_target_spec(
                #[trigger] crate::keys::sources_moved()[i],
            ) == Some(
                "press.".spec_bytes() + "sources".spec_bytes() + ".".spec_bytes()
                    + crate::keys::sources_moved()[i],
            ),
        forall|i: int|
            0 <= i < crate::keys::declare_moved().len() ==> deprecated_target_spec(
                #[trigger] crate::keys::declare_moved()[i],
            ) == Some(
                "press.".spec_bytes() + "declare".spec_bytes() + ".".spec_bytes()
                    + crate::keys::declare_moved()[i],
            ),
{
    crate::keys::lemma_names_distinct();
    let a = crate::keys::all_names();
    let m = crate::keys::moved_names();
    assert(a[11] == m[0]);
    assert(a[12] == m[1]);
    assert(a[13] == m[2]);
    assert(a[14] == m[3]);
    assert(a[15] == m[4]);
    assert(a[16] == m[5]);
    assert(a[11] != a[13] && a[11] != a[14] && a[11] != a[15] && a[11] != a[16]);
    assert(a[12] != a[13] && a[12] != a[14] && a[12] != a[15] && a[12] != a[16]);
}

/// Whether `b` is the bytes of `lit`.
pub(crate) fn is(b: &[u8], lit: &str) -> (r: bool)
    ensures
        r == (b@ == lit.spec_bytes()),
{
    let r = range_eq(b, 0, b.len(), lit.as_bytes());
    proof {
        assert(b@.subrange(0, b@.len() as int) =~= b@);
    }
    r
}

/// Appends the bytes of `s`.
fn push_str(out: &mut Vec<u8>, s: &str)
    ensures
        final(out)@ == old(out)@ + s.spec_bytes(),
{
    let b = s.as_bytes();
    push_range(out, b, 0, b.len());
    proof {
        assert(b@.subrange(0, b@.len() as int) =~= b@);
    }
}

/// Every deprecated key as a dotted path, with the path it moved to: the
/// one table the diagnostic message and the fix read.
pub fn deprecated_key_target(key: &str) -> (r: Option<String>)
    ensures
        match r {
            Some(t) => deprecated_target_spec(key.spec_bytes()) == Some(owned(t)),
            None => deprecated_target_spec(key.spec_bytes()) is None,
        },
{
    let b = key.as_bytes();
    let group: Option<&str> = if is(b, "bibliography") || is(b, "crossrefs") {
        Some("sources")
    } else if is(b, "counters") || is(b, "admonitions") || is(b, "glossary") || is(b, "acronyms") {
        Some("declare")
    } else {
        None
    };
    match group {
        Some(g) => {
            let mut out: Vec<u8> = Vec::new();
            push_str(&mut out, "press.");
            push_str(&mut out, g);
            push_str(&mut out, ".");
            push_str(&mut out, key);
            proof {
                let a = "press.".spec_bytes();
                let d = ".".spec_bytes();
                assert(out@ =~= a + g.spec_bytes() + d + key.spec_bytes());
                assert(valid_utf8(encode_utf8("press."@)));
                assert(valid_utf8(encode_utf8(g@)));
                assert(valid_utf8(encode_utf8("."@)));
                assert(valid_utf8(encode_utf8(key@)));
                valid_utf8_concat(a, g.spec_bytes());
                valid_utf8_concat(a + g.spec_bytes(), d);
                valid_utf8_concat(a + g.spec_bytes() + d, key.spec_bytes());
            }
            Some(string_of(out))
        },
        None => {
            let p = "press.".as_bytes();
            if crate::text::starts_at(b, 0, p) {
                let n = b.len();
                let six = p.len();
                let rest_cs = range_eq(b, six, n, "callout_style".as_bytes());
                let rest_as = range_eq(b, six, n, "admonition_style".as_bytes());
                if rest_cs || rest_as {
                    return Some(String::from_str("press.callouts.style"));
                }
            }
            None
        },
    }
}

/// `serde_json::Value`, the value the YAML reader reads front matter into.
#[verifier::external_type_specification]
#[verifier::external_body]
pub struct ExJsonValue(serde_json::Value);

/// What the YAML reader makes of a front matter's text: its value as the
/// library holds it, or the reader's error. A function of the text alone.
pub uninterp spec fn yaml_read(raw: Seq<char>) -> Result<JsonModel, serde_yaml_ng::Error>;

/// Converts a `serde_json::Value` into the library's value, one for one:
/// each number as `serde_json` writes it, arrays and mappings in their
/// order. Nothing is claimed here; `read_yaml` names the whole reading.
#[verifier::external_body]
fn json_of(v: serde_json::Value) -> Json {
    match v {
        serde_json::Value::Null => Json::Null,
        serde_json::Value::Bool(b) => Json::Bool(b),
        serde_json::Value::Number(n) => Json::Number(n.to_string()),
        serde_json::Value::String(s) => Json::Str(s),
        serde_json::Value::Array(a) => Json::Array(a.into_iter().map(json_of).collect()),
        serde_json::Value::Object(m) => Json::Object(m.into_iter().map(|(k, x)| (k, json_of(x))).collect()),
    }
}

/// Calls `serde_yaml_ng::from_str` into a `serde_json::Value`, converted
/// to the library's value: what the reader gives is a function of the
/// text alone, named `yaml_read`.
#[verifier::external_body]
fn read_yaml(raw: &str) -> (r: Result<Json, serde_yaml_ng::Error>)
    ensures
        match r {
            Ok(v) => yaml_read(raw@) == Ok::<JsonModel, serde_yaml_ng::Error>(model(v)),
            Err(e) => yaml_read(raw@) == Err::<JsonModel, serde_yaml_ng::Error>(e),
        },
{
    serde_yaml_ng::from_str::<serde_json::Value>(raw).map(json_of)
}

/// Reads the front matter's YAML text and sorts its keys: the reader's
/// error, with its location, when the text is no YAML; else what
/// `sort_keys` gives of the value read.
pub fn sort_front_matter(raw: &str) -> (r: Result<Sorted, FrontMatterError>)
    ensures
        match yaml_read(raw@) {
            Err(e) => r matches Err(x) && from_yaml_spec(e, x),
            Ok(m) => exists|v: Json| model(v) == m && #[trigger] sorted_from(v, r),
        },
{
    match read_yaml(raw) {
        Err(e) => Err(FrontMatterError::from_yaml(e)),
        Ok(v) => {
            let r = sort_keys(v);
            proof {
                assert(model(v) == yaml_read(raw@)->Ok_0);
                assert(sorted_from(v, r));
            }
            r
        },
    }
}

} // verus!
