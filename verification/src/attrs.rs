//! Attribute lists: `{#id .class key=value}` as the IR holds them.

use vstd::prelude::*;
use crate::span::SubSpan;
use vstd::string::*;
use crate::text::owned;

verus! {

/// An attribute list: an id, classes and `key=value` pairs, in the order
/// they were written.
#[derive(Clone, Debug, Default, PartialEq)]
pub struct Attrs {
    pub id: Option<String>,
    /// Where the id sits, when it was read from source text.
    pub id_span: Option<SubSpan>,
    pub classes: Vec<String>,
    pub kv: Vec<(String, String)>,
}

/// An attribute list with every string taken as its UTF-8 bytes.
#[verifier::ext_equal]
pub struct AttrsModel {
    pub id: Option<Seq<u8>>,
    pub id_span: Option<SubSpan>,
    pub classes: Seq<Seq<u8>>,
    pub kv: Seq<(Seq<u8>, Seq<u8>)>,
}

/// The bytes of an optional string.
pub open spec fn owned_opt(s: Option<String>) -> Option<Seq<u8>> {
    match s {
        Some(t) => Some(owned(t)),
        None => None,
    }
}

/// The bytes of each string of a list.
pub open spec fn owned_seq(v: Seq<String>) -> Seq<Seq<u8>> {
    v.map_values(|s: String| owned(s))
}

/// The bytes of each pair of strings of a list.
pub open spec fn owned_pairs(v: Seq<(String, String)>) -> Seq<(Seq<u8>, Seq<u8>)> {
    v.map_values(|p: (String, String)| (owned(p.0), owned(p.1)))
}

impl View for Attrs {
    type V = AttrsModel;

    open spec fn view(&self) -> AttrsModel {
        AttrsModel {
            id: owned_opt(self.id),
            id_span: self.id_span,
            classes: owned_seq(self.classes@),
            kv: owned_pairs(self.kv@),
        }
    }
}

/// The empty attribute list.
pub open spec fn empty_model() -> AttrsModel {
    AttrsModel { id: None, id_span: None, classes: seq![], kv: seq![] }
}

/// The value of the first pair of `kv` from `i` on whose key is `key`.
pub open spec fn first_value(kv: Seq<(Seq<u8>, Seq<u8>)>, key: Seq<u8>, i: int) -> Option<Seq<u8>>
    decreases kv.len() - i,
{
    if i < 0 || i >= kv.len() {
        None
    } else if kv[i].0 == key {
        Some(kv[i].1)
    } else {
        first_value(kv, key, i + 1)
    }
}

impl Attrs {
    /// The empty list.
    pub fn new() -> (r: Attrs)
        ensures
            r@ == empty_model(),
    {
        let r = Attrs { id: None, id_span: None, classes: Vec::new(), kv: Vec::new() };
        assert(r@ =~= empty_model());
        r
    }

    /// Whether the list holds nothing: no id, no class, no pair.
    pub fn is_empty(&self) -> (r: bool)
        ensures
            r == (self.id is None && self.classes@.len() == 0 && self.kv@.len() == 0),
    {
        self.id.is_none() && self.classes.len() == 0 && self.kv.len() == 0
    }

    /// The value of the first pair named `key`.
    pub fn get(&self, key: &str) -> (r: Option<&str>)
        ensures
            match r {
                Some(v) => first_value(self@.kv, key.spec_bytes(), 0) == Some(v.spec_bytes()),
                None => first_value(self@.kv, key.spec_bytes(), 0) is None,
            },
    {
        let k = key.as_bytes();
        let mut i: usize = 0;
        while i < self.kv.len()
            invariant
                0 <= i <= self.kv@.len(),
                k@ == key.spec_bytes(),
                first_value(self@.kv, k@, 0) == first_value(self@.kv, k@, i as int),
            decreases self.kv@.len() - i,
        {
            let name = self.kv[i].0.as_str().as_bytes();
            if crate::text::range_eq(name, 0, name.len(), k) {
                proof {
                    assert(name@.subrange(0, name@.len() as int) =~= name@);
                }
                let v = self.kv[i].1.as_str();
                return Some(v);
            }
            proof {
                assert(name@.subrange(0, name@.len() as int) =~= name@);
            }
            i += 1;
        }
        None
    }
}

} // verus!
