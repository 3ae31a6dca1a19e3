use vstd::prelude::*;
use vstd::utf8::encode_utf8;

use crate::json::{json_text, text_of, Json};
use crate::path::{at_path, Dotnotation};

verus! {

/// The instant that an RFC 3339 timestamp denotes, as seconds since the Unix
/// epoch and nanoseconds within that second; `None` where the text is not
/// such a timestamp.
pub uninterp spec fn instant_of(s: Seq<char>) -> Option<(i64, u32)>;

/// Relies on chrono's `DateTime::parse_from_rfc3339`, then `timestamp` and
/// `timestamp_subsec_nanos` of the parsed value: the outcome depends on the
/// text alone.
#[verifier::external_body]
fn rfc3339_instant(s: &str) -> (r: Option<(i64, u32)>)
    ensures
        r == instant_of(s@),
{
    chrono::DateTime::parse_from_rfc3339(s).ok().map(|d| (d.timestamp(), d.timestamp_subsec_nanos()))
}

/// Byte-wise lexicographic order: a prefix comes first.
pub open spec fn bytes_le(a: Seq<u8>, b: Seq<u8>) -> bool
    decreases a.len(),
{
    if a.len() == 0 {
        true
    } else if b.len() == 0 {
        false
    } else if a[0] != b[0] {
        a[0] < b[0]
    } else {
        bytes_le(a.drop_first(), b.drop_first())
    }
}

/// Chronological order of two instants.
pub open spec fn instant_le(x: (i64, u32), y: (i64, u32)) -> bool {
    x.0 < y.0 || (x.0 == y.0 && x.1 <= y.1)
}

/// Order of two sort texts whose timestamp readings are `ia` and `ib`: by
/// instant when both are timestamps, else by their UTF-8 bytes.
pub open spec fn texts_le(a: Seq<char>, ia: Option<(i64, u32)>, b: Seq<char>, ib: Option<(i64, u32)>) -> bool {
    match (ia, ib) {
        (Some(x), Some(y)) => instant_le(x, y),
        _ => bytes_le(encode_utf8(a), encode_utf8(b)),
    }
}

/// The text that a value sorts by: a string's own characters, else its JSON text.
pub open spec fn sort_text(v: Json) -> Seq<char> {
    match v {
        Json::Str(s) => s@,
        _ => text_of(v),
    }
}

/// `a` sorts no later than `b`.
#[verifier::opaque]
pub open spec fn value_le(a: Json, b: Json) -> bool {
    texts_le(sort_text(a), instant_of(sort_text(a)), sort_text(b), instant_of(sort_text(b)))
}

/// The value that `key` addresses in a record that has it.
pub open spec fn sort_value(r: Json, key: Seq<char>) -> Json {
    at_path(r, key)->Some_0
}

/// Each record of `s` sorts no later than the next one, by the value at `key`.
pub open spec fn sorted_by(s: Seq<Json>, key: Seq<char>) -> bool {
    forall|i: int|
        0 <= i < s.len() - 1 ==> value_le(sort_value(#[trigger] s[i], key), sort_value(s[i + 1], key))
}

/// `key` resolves on every record of `s`.
pub open spec fn all_resolve(s: Seq<Json>, key: Seq<char>) -> bool {
    forall|i: int| 0 <= i < s.len() ==> (#[trigger] at_path(s[i], key)) is Some
}

proof fn lemma_bytes_total(a: Seq<u8>, b: Seq<u8>)
    ensures
        bytes_le(a, b) || bytes_le(b, a),
    decreases a.len(),
{
    if a.len() > 0 && b.len() > 0 && a[0] == b[0] {
        lemma_bytes_total(a.drop_first(), b.drop_first());
    }
}

/// Of any two values, one sorts no later than the other.
pub proof fn lemma_value_le_total(a: Json, b: Json)
    ensures
        value_le(a, b) || value_le(b, a),
{
    reveal(value_le);
    lemma_bytes_total(encode_utf8(sort_text(a)), encode_utf8(sort_text(b)));
}

fn bytes_le_exec(a: &[u8], b: &[u8]) -> (r: bool)
    ensures
        r == bytes_le(a@, b@),
{
    let mut i: usize = 0;
    assert(a@.subrange(0, a@.len() as int) =~= a@);
    assert(b@.subrange(0, b@.len() as int) =~= b@);
    while i < a.len() && i < b.len()
        invariant
            i <= a.len(),
            i <= b.len(),
            bytes_le(a@, b@) == bytes_le(
                a@.subrange(i as int, a@.len() as int),
                b@.subrange(i as int, b@.len() as int),
            ),
        decreases a.len() - i,
    {
        let ghost ra = a@.subrange(i as int, a@.len() as int);
        let ghost rb = b@.subrange(i as int, b@.len() as int);
        assert(ra.drop_first() =~= a@.subrange(i + 1, a@.len() as int));
        assert(rb.drop_first() =~= b@.subrange(i + 1, b@.len() as int));
        if a[i] != b[i] {
            return a[i] < b[i];
        }
        i = i + 1;
    }
    i == a.len()
}

/// The order of two sort texts, given what reading each as an RFC 3339
/// timestamp gave.
pub fn texts_in_order(a: &str, ia: Option<(i64, u32)>, b: &str, ib: Option<(i64, u32)>) -> (r: bool)
    ensures
        r == texts_le(a@, ia, b@, ib),
{
    match (ia, ib) {
        (Some(x), Some(y)) => x.0 < y.0 || (x.0 == y.0 && x.1 <= y.1),
        _ => bytes_le_exec(a.as_bytes(), b.as_bytes()),
    }
}

fn sort_text_of(v: &Json) -> (r: String)
    ensures
        r@ == sort_text(*v),
{
    match v {
        Json::Str(s) => s.clone(),
        _ => json_text(v),
    }
}

/// `a` sorts no later than `b`.
pub fn values_in_order(a: &Json, b: &Json) -> (r: bool)
    ensures
        r == value_le(*a, *b),
{
    let ta = sort_text_of(a);
    let tb = sort_text_of(b);
    let ia = rfc3339_instant(ta.as_str());
    let ib = rfc3339_instant(tb.as_str());
    proof {
        reveal(value_le);
    }
    texts_in_order(ta.as_str(), ia, tb.as_str(), ib)
}

/// Ordering of records by the value at a dotted key path.
pub trait SortByDotnotation<T>: Sized {
    spec fn can_sort_by(&self, key: Seq<char>) -> bool;

    fn sort_by_dotnotation(&mut self, key: &str)
        requires
            old(self).can_sort_by(key@),
    ;
}

proof fn lemma_move_last(out: Seq<Json>, rest: Seq<Json>, p: int)
    requires
        rest.len() > 0,
        0 <= p <= out.len(),
    ensures
        out.insert(p, rest.last()).to_multiset().add(rest.drop_last().to_multiset())
            == out.to_multiset().add(rest.to_multiset()),
{
    broadcast use vstd::seq_lib::group_to_multiset_ensures;

    let x = rest.last();
    vstd::seq_lib::to_multiset_insert(out, p, x);
    vstd::seq_lib::to_multiset_build(rest.drop_last(), x);
    assert(rest.drop_last().push(x) =~= rest);
    assert(out.insert(p, x).to_multiset().add(rest.drop_last().to_multiset()) =~= out.to_multiset().add(
        rest.to_multiset(),
    ));
}

/// Inserts `rec` into the sorted `out` where it keeps `out` sorted.
fn insert_sorted(out: &mut Vec<Json>, rec: Json, key: &str)
    requires
        all_resolve(old(out)@, key@),
        sorted_by(old(out)@, key@),
        at_path(rec, key@) is Some,
    ensures
        exists|p: int| 0 <= p <= old(out)@.len() && final(out)@ == old(out)@.insert(p, rec),
        all_resolve(final(out)@, key@),
        sorted_by(final(out)@, key@),
{
    let x = match rec.get_by_dotnotation(key) {
        Some(v) => v,
        None => {
            return;
        },
    };
    let mut p: usize = out.len();
    let mut placed: bool = false;
    while p > 0 && !placed
        invariant
            p <= out.len(),
            placed ==> p > 0 && value_le(sort_value(out@[p - 1], key@), *x),
            all_resolve(out@, key@),
            *x == sort_value(rec, key@),
            forall|q: int|
                p <= q < out@.len() ==> !value_le(sort_value(#[trigger] out@[q], key@), *x),
        decreases p + (if placed { 0int } else { 1int }),
    {
        let y = match out[p - 1].get_by_dotnotation(key) {
            Some(y) => y,
            None => {
                proof {
                    assert(at_path(out@[p - 1], key@) is Some);
                }
                return;
            },
        };
        if values_in_order(y, x) {
            placed = true;
        } else {
            p = p - 1;
        }
    }
    let ghost old_out = out@;
    let ghost xv = *x;
    out.insert(p, rec);
    proof {
        lemma_insert_keeps_sorted(old_out, p as int, rec, key@);
        assert(out@ =~= old_out.insert(p as int, rec));
    }
}

proof fn lemma_insert_keeps_sorted(s: Seq<Json>, p: int, rec: Json, key: Seq<char>)
    requires
        0 <= p <= s.len(),
        all_resolve(s, key),
        sorted_by(s, key),
        at_path(rec, key) is Some,
        p > 0 ==> value_le(sort_value(s[p - 1], key), sort_value(rec, key)),
        forall|q: int| p <= q < s.len() ==> !value_le(sort_value(#[trigger] s[q], key), sort_value(rec, key)),
    ensures
        all_resolve(s.insert(p, rec), key),
        sorted_by(s.insert(p, rec), key),
{
    let t = s.insert(p, rec);
    if p < s.len() {
        lemma_value_le_total(sort_value(s[p], key), sort_value(rec, key));
    }
    assert forall|i: int| 0 <= i < t.len() - 1 implies value_le(
        sort_value(#[trigger] t[i], key),
        sort_value(t[i + 1], key),
    ) by {
        if i + 1 < p {
            assert(t[i] == s[i] && t[i + 1] == s[i + 1]);
        } else if i + 1 == p {
            assert(t[i] == s[i]);
        } else if i == p {
            assert(t[i + 1] == s[i]);
        } else {
            assert(t[i] == s[i - 1] && t[i + 1] == s[i]);
        }
    }
    assert forall|i: int| 0 <= i < t.len() implies (#[trigger] at_path(t[i], key)) is Some by {
        if i < p {
            assert(t[i] == s[i]);
        } else if i > p {
            assert(t[i] == s[i - 1]);
        }
    }
}

impl SortByDotnotation<Json> for Vec<Json> {
    open spec fn can_sort_by(&self, key: Seq<char>) -> bool {
        all_resolve(self@, key)
    }

    /// Reorders the records so that each sorts no later than the next by the
    /// value at `key`; the same records stay, as many times each.
    fn sort_by_dotnotation(&mut self, key: &str)
        ensures
            final(self)@.to_multiset() == old(self)@.to_multiset(),
            sorted_by(final(self)@, key@),
    {
        let ghost orig = self@;
        let mut out: Vec<Json> = Vec::new();
        proof {
            broadcast use vstd::seq_lib::group_to_multiset_ensures;

            assert(out@.to_multiset() =~= vstd::multiset::Multiset::empty());
            assert(out@.to_multiset().add(self@.to_multiset()) =~= orig.to_multiset());
        }
        while self.len() > 0
            invariant
                all_resolve(self@, key@),
                all_resolve(out@, key@),
                sorted_by(out@, key@),
                out@.to_multiset().add(self@.to_multiset()) == orig.to_multiset(),
            decreases self.len(),
        {
            let ghost before = self@;
            let rec = self.pop().unwrap();
            assert(at_path(before[before.len() - 1], key@) is Some);
            assert forall|i: int| 0 <= i < self@.len() implies (#[trigger] at_path(self@[i], key@)) is Some by {
                assert(self@[i] == before[i]);
            }
            let ghost old_out = out@;
            insert_sorted(&mut out, rec, key);
            proof {
                let p = choose|p: int| 0 <= p <= old_out.len() && out@ == old_out.insert(p, rec);
                lemma_move_last(old_out, before, p);
                assert(before.drop_last() == self@);
            }
        }
        proof {
            broadcast use vstd::seq_lib::group_to_multiset_ensures;

            assert(self@.to_multiset() =~= vstd::multiset::Multiset::empty());
            assert(out@.to_multiset() =~= orig.to_multiset());
        }
        *self = out;
    }
}


} // verus!
