use vstd::prelude::*;

verus! {

/// serde_json's number, carried through as it was read.
#[verifier::external_type_specification]
#[verifier::external_body]
pub struct ExNumber(serde_json::Number);

/// Relies on the `Clone` that serde_json derives for `Number`: a field-wise copy.
pub assume_specification[ <serde_json::Number as Clone>::clone ](n: &serde_json::Number) -> (r:
    serde_json::Number)
    ensures
        r == *n,
;

/// serde_json's value tree, met only inside the conversions below.
#[verifier::external_type_specification]
#[verifier::external_body]
pub struct ExValue(serde_json::Value);

/// A JSON value. Object members keep the order in which they were read.
#[derive(Debug)]
pub enum Json {
    Null,
    Bool(bool),
    Number(serde_json::Number),
    Str(String),
    Array(Vec<Json>),
    Object(Vec<(String, Json)>),
}

/// `a` and `b` are the same tree: same variants, same scalars, same member
/// names, same items in the same order.
pub open spec fn same(a: Json, b: Json) -> bool
    decreases a,
{
    match (a, b) {
        (Json::Null, Json::Null) => true,
        (Json::Bool(x), Json::Bool(y)) => x == y,
        (Json::Number(x), Json::Number(y)) => x == y,
        (Json::Str(x), Json::Str(y)) => x@ == y@,
        (Json::Array(x), Json::Array(y)) => {
            &&& x.len() == y.len()
            &&& forall|i: int| 0 <= i < x.len() ==> same(#[trigger] x@[i], y@[i])
        },
        (Json::Object(x), Json::Object(y)) => {
            &&& x.len() == y.len()
            &&& forall|i: int|
                0 <= i < x.len() ==> (#[trigger] x@[i]).0@ == y@[i].0@ && same(x@[i].1, y@[i].1)
        },
        _ => false,
    }
}

proof fn lemma_children_smaller(j: Json, i: int)
    ensures
        j is Array && 0 <= i < j->Array_0.len() ==> decreases_to!(j => j->Array_0@[i]),
        j is Object && 0 <= i < j->Object_0.len() ==> decreases_to!(j => j->Object_0@[i].1),
{
    broadcast use vstd::std_specs::vec::axiom_vec_decreases_to_view;
    broadcast use vstd::seq::axiom_seq_index_decreases;
    if j is Array && 0 <= i < j->Array_0.len() {
        let v = j->Array_0;
        assert(decreases_to!(j => v));
    }
    if j is Object && 0 <= i < j->Object_0.len() {
        let v = j->Object_0;
        assert(decreases_to!(j => v));
        assert(decreases_to!(v@[i] => v@[i].1));
    }
}

/// The value of the first member of `entries`, from index `i` on, whose name is `name`.
pub open spec fn member_from(entries: Seq<(String, Json)>, i: int, name: Seq<char>) -> Option<Json>
    decreases entries.len() - i,
{
    if i < 0 || i >= entries.len() {
        None
    } else if entries[i].0@ == name {
        Some(entries[i].1)
    } else {
        member_from(entries, i + 1, name)
    }
}

/// The value under `name` when `v` is an object holding such a member.
pub open spec fn member(v: Json, name: Seq<char>) -> Option<Json> {
    match v {
        Json::Object(entries) => member_from(entries@, 0, name),
        _ => None,
    }
}

/// The compact JSON text that serde_json prints for a value.
pub uninterp spec fn text_of(v: Json) -> Seq<char>;

/// Converts a value to serde_json's own representation, variant for variant.
#[verifier::external_body]
fn to_value(v: &Json) -> serde_json::Value {
    match v {
        Json::Null => serde_json::Value::Null,
        Json::Bool(b) => serde_json::Value::Bool(*b),
        Json::Number(n) => serde_json::Value::Number(n.clone()),
        Json::Str(s) => serde_json::Value::String(s.clone()),
        Json::Array(items) => serde_json::Value::Array(items.iter().map(to_value).collect()),
        Json::Object(entries) => serde_json::Value::Object(
            entries.iter().map(|(k, x)| (k.clone(), to_value(x))).collect(),
        ),
    }
}

/// Converts serde_json's representation to a value, variant for variant.
#[verifier::external_body]
fn from_value(v: &serde_json::Value) -> Json {
    match v {
        serde_json::Value::Null => Json::Null,
        serde_json::Value::Bool(b) => Json::Bool(*b),
        serde_json::Value::Number(n) => Json::Number(n.clone()),
        serde_json::Value::String(s) => Json::Str(s.clone()),
        serde_json::Value::Array(items) => Json::Array(items.iter().map(from_value).collect()),
        serde_json::Value::Object(m) => Json::Object(
            m.iter().map(|(k, x)| (k.clone(), from_value(x))).collect(),
        ),
    }
}

/// The document that a byte string holds, read as JSON; `None` where it is
/// not JSON.
pub uninterp spec fn parsed_of(bytes: Seq<u8>) -> Option<Json>;

/// Relies on `serde_json::from_slice` into a `Value`: the outcome depends on
/// the bytes alone.
#[verifier::external_body]
pub(crate) fn parse_document(bytes: &[u8]) -> (r: Option<Json>)
    ensures
        r == parsed_of(bytes@),
{
    serde_json::from_slice::<serde_json::Value>(bytes).ok().map(|v| from_value(&v))
}

/// Relies on serde_json's `Display` for `Value`: the compact JSON text of the
/// value, which depends on the value alone.
#[verifier::external_body]
pub(crate) fn json_text(v: &Json) -> (r: String)
    ensures
        r@ == text_of(*v),
{
    to_value(v).to_string()
}

impl Json {
    /// The value under `name`, when `self` is an object with such a member.
    pub fn get(&self, name: &str) -> (r: Option<&Json>)
        ensures
            r matches Some(x) ==> member(*self, name@) == Some(*x),
            r is None <==> member(*self, name@) is None,
    {
        let wanted: String = name.to_owned();
        self.member_named(&wanted)
    }

    /// A copy of the whole tree.
    pub fn deep_copy(&self) -> (r: Json)
        ensures
            same(r, *self),
        decreases self,
    {
        match self {
            Json::Null => Json::Null,
            Json::Bool(b) => Json::Bool(*b),
            Json::Number(n) => Json::Number(n.clone()),
            Json::Str(s) => Json::Str(s.clone()),
            Json::Array(items) => {
                let mut out: Vec<Json> = Vec::new();
                let mut i: usize = 0;
                while i < items.len()
                    invariant
                        i <= items.len(),
                        *self == Json::Array(*items),
                        out.len() == i,
                        forall|j: int| 0 <= j < i ==> same(#[trigger] out@[j], items@[j]),
                    decreases items.len() - i,
                {
                    proof {
                        lemma_children_smaller(*self, i as int);
                    }
                    out.push(items[i].deep_copy());
                    i = i + 1;
                }
                Json::Array(out)
            },
            Json::Object(entries) => {
                let mut out: Vec<(String, Json)> = Vec::new();
                let mut i: usize = 0;
                while i < entries.len()
                    invariant
                        i <= entries.len(),
                        *self == Json::Object(*entries),
                        out.len() == i,
                        forall|j: int|
                            0 <= j < i ==> (#[trigger] out@[j]).0@ == entries@[j].0@ && same(
                                out@[j].1,
                                entries@[j].1,
                            ),
                    decreases entries.len() - i,
                {
                    proof {
                        lemma_children_smaller(*self, i as int);
                    }
                    let name = entries[i].0.clone();
                    let value = entries[i].1.deep_copy();
                    out.push((name, value));
                    i = i + 1;
                }
                Json::Object(out)
            },
        }
    }

    pub(crate) fn member_named(&self, name: &String) -> (r: Option<&Json>)
        ensures
            r matches Some(x) ==> member(*self, name@) == Some(*x),
            r is None <==> member(*self, name@) is None,
    {
        match self {
            Json::Object(entries) => {
                let mut i: usize = 0;
                while i < entries.len()
                    invariant
                        i <= entries.len(),
                        member(*self, name@) == member_from(entries@, i as int, name@),
                    decreases entries.len() - i,
                {
                    if entries[i].0 == *name {
                        return Some(&entries[i].1);
                    }
                    i = i + 1;
                }
                None
            },
            _ => None,
        }
    }
}

} // verus!
