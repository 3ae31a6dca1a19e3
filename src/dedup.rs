use vstd::prelude::*;

use crate::json::{json_text, same, text_of, Json};
use crate::path::{at_path, Dotnotation};

verus! {

/// The dedup key of a record: the JSON text of the value that `key` addresses
/// in it, if any.
pub open spec fn key_text(r: Json, key: Seq<char>) -> Option<Seq<char>> {
    match at_path(r, key) {
        Some(v) => Some(text_of(v)),
        None => None,
    }
}

/// The dedup keys of the records of `s` under the key path `key`.
pub open spec fn keys_of(s: Seq<Json>, key: Seq<char>) -> Seq<Option<Seq<char>>> {
    Seq::new(s.len(), |i: int| key_text(s[i], key))
}

/// The views of given keys.
pub open spec fn key_views(keys: Seq<Option<String>>) -> Seq<Option<Seq<char>>> {
    Seq::new(
        keys.len(),
        |i: int|
            match keys[i] {
                Some(t) => Some(t@),
                None => None,
            },
    )
}

/// One of the first `n` keys is `t`.
pub open spec fn key_seen(ks: Seq<Option<Seq<char>>>, n: int, t: Seq<char>) -> bool {
    exists|j: int| 0 <= j < n && j < ks.len() && #[trigger] ks[j] == Some(t)
}

/// The records of `s` whose key (`ks[i]` for `s[i]`) occurred earlier, in
/// their order.
pub open spec fn extra_occurrences(s: Seq<Json>, ks: Seq<Option<Seq<char>>>) -> Seq<Json>
    decreases s.len(),
{
    if s.len() == 0 {
        Seq::empty()
    } else {
        let front = extra_occurrences(s.drop_last(), ks);
        match ks[s.len() - 1] {
            Some(t) => if key_seen(ks, s.len() - 1, t) {
                front.push(s.last())
            } else {
                front
            },
            None => front,
        }
    }
}

/// `ks[j]` is a key, and no later key is the same.
pub open spec fn is_last_with_key(ks: Seq<Option<Seq<char>>>, j: int) -> bool {
    &&& 0 <= j < ks.len()
    &&& ks[j] is Some
    &&& forall|k: int| j < k < ks.len() ==> #[trigger] ks[k] != ks[j]
}

/// `r[i]` is a copy of `s[idx[i]]`; the `idx[i]` are distinct, and they are
/// exactly the positions of the last occurrence of each key.
pub open spec fn picks_last(s: Seq<Json>, ks: Seq<Option<Seq<char>>>, r: Seq<Json>, idx: Seq<int>) -> bool {
    &&& idx.len() == r.len()
    &&& forall|i: int|
        0 <= i < r.len() ==> is_last_with_key(ks, #[trigger] idx[i]) && same(r[i], s[idx[i]])
    &&& forall|i1: int, i2: int|
        0 <= i1 < r.len() && 0 <= i2 < r.len() && i1 != i2 ==> #[trigger] idx[i1] != #[trigger] idx[i2]
    &&& forall|j: int| #[trigger] is_last_with_key(ks, j) ==> exists|i: int| 0 <= i < r.len() && idx[i] == j
}

/// One copy of the last record for each key, in some order.
pub open spec fn is_dedup_of(s: Seq<Json>, ks: Seq<Option<Seq<char>>>, r: Seq<Json>) -> bool {
    exists|idx: Seq<int>| picks_last(s, ks, r, idx)
}

/// The number of absent keys.
pub open spec fn unresolved_count(ks: Seq<Option<Seq<char>>>) -> nat
    decreases ks.len(),
{
    if ks.len() == 0 {
        0
    } else {
        unresolved_count(ks.drop_last()) + if ks.last() is None {
            1nat
        } else {
            0nat
        }
    }
}

/// The distinct keys.
pub open spec fn key_set(ks: Seq<Option<Seq<char>>>) -> Set<Seq<char>> {
    Set::new(|t: Seq<char>| key_seen(ks, ks.len() as int, t))
}

proof fn lemma_key_set_step(ks: Seq<Option<Seq<char>>>)
    requires
        ks.len() > 0,
    ensures
        ks.last() is None ==> key_set(ks) == key_set(ks.drop_last()),
        ks.last() matches Some(t) ==> key_set(ks) == key_set(ks.drop_last()).insert(t),
        forall|t: Seq<char>| key_seen(ks, ks.len() - 1, t) == key_set(ks.drop_last()).contains(t),
{
    let f = ks.drop_last();
    assert forall|t: Seq<char>| key_seen(ks, ks.len() - 1, t) == key_seen(f, f.len() as int, t) by {
        if key_seen(ks, ks.len() - 1, t) {
            let j = choose|j: int| 0 <= j < ks.len() - 1 && j < ks.len() && #[trigger] ks[j] == Some(t);
            assert(f[j] == ks[j]);
        }
        if key_seen(f, f.len() as int, t) {
            let j = choose|j: int| 0 <= j < f.len() && j < f.len() && #[trigger] f[j] == Some(t);
            assert(f[j] == ks[j]);
        }
    }
    assert forall|t: Seq<char>| #[trigger] key_seen(ks, ks.len() as int, t) == (key_seen(ks, ks.len() - 1, t) || ks.last() == Some(t)) by {
        if key_seen(ks, ks.len() as int, t) {
            let j = choose|j: int| 0 <= j < ks.len() && j < ks.len() && #[trigger] ks[j] == Some(t);
            if j < ks.len() - 1 {
                assert(key_seen(ks, ks.len() - 1, t));
            }
        }
        if ks.last() == Some(t) {
            assert(ks[ks.len() - 1] == Some(t));
        }
    }
    if ks.last() is None {
        assert(key_set(ks) =~= key_set(f));
    }
    if ks.last() is Some {
        let t = ks.last()->Some_0;
        assert(key_set(ks) =~= key_set(f).insert(t));
    }
}

proof fn lemma_extra_prefix(s: Seq<Json>, ks: Seq<Option<Seq<char>>>, n: int)
    requires
        s.len() <= ks.len(),
        s.len() <= n <= ks.len(),
    ensures
        extra_occurrences(s, ks) == extra_occurrences(s, ks.subrange(0, n)),
    decreases s.len(),
{
    if s.len() > 0 {
        lemma_extra_prefix(s.drop_last(), ks, n);
        let p = ks.subrange(0, n);
        assert(p[s.len() - 1] == ks[s.len() - 1]);
        if ks[s.len() - 1] is Some {
            let t = ks[s.len() - 1]->Some_0;
            if key_seen(ks, s.len() - 1, t) {
                let j = choose|j: int| 0 <= j < s.len() - 1 && j < ks.len() && #[trigger] ks[j] == Some(t);
                assert(p[j] == ks[j]);
            }
            if key_seen(p, s.len() - 1, t) {
                let j = choose|j: int| 0 <= j < s.len() - 1 && j < p.len() && #[trigger] p[j] == Some(t);
                assert(p[j] == ks[j]);
            }
        }
    }
}

/// The records left behind number the records given, less those without a
/// key, less one for each distinct key.
pub proof fn lemma_extra_count(s: Seq<Json>, ks: Seq<Option<Seq<char>>>)
    requires
        s.len() == ks.len(),
    ensures
        key_set(ks).finite(),
        extra_occurrences(s, ks).len() == s.len() - unresolved_count(ks) - key_set(ks).len(),
    decreases s.len(),
{
    if s.len() == 0 {
        assert(key_set(ks) =~= Set::<Seq<char>>::empty());
    } else {
        let f = ks.drop_last();
        lemma_extra_count(s.drop_last(), f);
        lemma_extra_prefix(s.drop_last(), ks, s.len() - 1);
        assert(ks.subrange(0, s.len() - 1) =~= f);
        lemma_key_set_step(ks);
        if ks.last() is Some {
            let t = ks.last()->Some_0;
            assert(ks[s.len() - 1] == Some(t));
            if !key_set(f).contains(t) {
                assert(key_set(ks).len() == key_set(f).len() + 1);
            } else {
                assert(key_set(ks) =~= key_set(f));
            }
        }
    }
}

/// Of what an extraction returns, each record is a copy of the last record
/// with its key, and no two come from records with the same key.
pub proof fn lemma_one_record_per_key(s: Seq<Json>, ks: Seq<Option<Seq<char>>>, r: Seq<Json>)
    requires
        is_dedup_of(s, ks, r),
    ensures
        exists|idx: Seq<int>|
            {
                &&& idx.len() == r.len()
                &&& forall|i: int|
                    0 <= i < r.len() ==> #[trigger] same(r[i], s[idx[i]]) && is_last_with_key(ks, idx[i])
                &&& forall|i1: int, i2: int|
                    0 <= i1 < r.len() && 0 <= i2 < r.len() && i1 != i2 ==> ks[#[trigger] idx[i1]]
                        != ks[#[trigger] idx[i2]]
            },
{
    let idx = choose|idx: Seq<int>| picks_last(s, ks, r, idx);
    assert forall|i1: int, i2: int|
        0 <= i1 < r.len() && 0 <= i2 < r.len() && i1 != i2 implies ks[#[trigger] idx[i1]] != ks[#[trigger] idx[i2]] by {
        assert(is_last_with_key(ks, idx[i1]));
        assert(is_last_with_key(ks, idx[i2]));
        if idx[i1] < idx[i2] {
            assert(ks[idx[i2]] != ks[idx[i1]]);
        } else {
            assert(ks[idx[i1]] != ks[idx[i2]]);
        }
    }
}

/// Splits `records` by the given keys, `keys[i]` being the key of
/// `records[i]` (`None`: it has none). Keeps in `records` the records whose key
/// occurred earlier, drops those without a key, and returns one copy of the
/// last record for each key.
pub fn extract_by_keys(records: &mut Vec<Json>, keys: &Vec<Option<String>>) -> (r: Vec<Json>)
    requires
        old(records)@.len() == keys@.len(),
    ensures
        final(records)@ == extra_occurrences(old(records)@, key_views(keys@)),
        is_dedup_of(old(records)@, key_views(keys@), r@),
{
    let ghost orig = records@;
    let ghost n = records@.len();
    let ghost ks = key_views(keys@);
    // Move the records onto a stack, last record at the bottom.
    let mut stack: Vec<Json> = Vec::new();
    while records.len() > 0
        invariant
            n == orig.len(),
            records@ == orig.subrange(0, records@.len() as int),
            stack@.len() == n - records@.len(),
            forall|j: int| 0 <= j < stack@.len() ==> #[trigger] stack@[j] == orig[n - 1 - j],
        decreases records.len(),
    {
        let rec = records.pop().unwrap();
        stack.push(rec);
        assert(records@ =~= orig.subrange(0, records@.len() as int));
    }
    let mut found: Vec<(String, Json)> = Vec::new();
    let ghost mut fidx: Seq<int> = Seq::empty();
    let mut k: usize = 0;
    assert(records@ =~= extra_occurrences(orig.subrange(0, 0), ks));
    while stack.len() > 0
        invariant
            n == orig.len(),
            n == keys@.len(),
            ks == key_views(keys@),
            0 <= k <= n,
            stack@.len() == n - k,
            forall|j: int| 0 <= j < stack@.len() ==> #[trigger] stack@[j] == orig[n - 1 - j],
            records@ == extra_occurrences(orig.subrange(0, k as int), ks),
            fidx.len() == found@.len(),
            forall|m: int|
                0 <= m < found@.len() ==> {
                    &&& 0 <= #[trigger] fidx[m] < k
                    &&& ks[fidx[m]] == Some(found@[m].0@)
                    &&& same(found@[m].1, orig[fidx[m]])
                    &&& forall|q: int| fidx[m] < q < k ==> #[trigger] ks[q] != Some(found@[m].0@)
                },
            forall|m1: int, m2: int|
                0 <= m1 < found@.len() && 0 <= m2 < found@.len() && m1 != m2
                    ==> #[trigger] found@[m1].0@ != #[trigger] found@[m2].0@,
            forall|j: int|
                0 <= j < k && (#[trigger] ks[j]) is Some ==> exists|m: int|
                    0 <= m < found@.len() && Some(found@[m].0@) == ks[j],
        decreases stack.len(),
    {
        let rec = stack.pop().unwrap();
        assert(rec == orig[k as int]);
        let ghost pre = orig.subrange(0, k as int);
        let ghost post = orig.subrange(0, k + 1);
        assert(post.drop_last() =~= pre);
        assert(post.last() == orig[k as int]);
        match &keys[k] {
            None => {},
            Some(t) => {
                assert(ks[k as int] == Some(t@));
                let mut m: usize = 0;
                let mut hit: bool = false;
                while m < found.len() && !hit
                    invariant
                        m <= found.len(),
                        hit ==> m < found.len() && found@[m as int].0@ == t@,
                        !hit ==> forall|p: int| 0 <= p < m ==> (#[trigger] found@[p]).0@ != t@,
                    decreases found.len() - m - (if hit { 1int } else { 0int }),
                {
                    if found[m].0 == *t {
                        hit = true;
                    } else {
                        m = m + 1;
                    }
                }
                let copy = rec.deep_copy();
                let ghost before = found@;
                if hit {
                    proof {
                        assert(ks[fidx[m as int]] == Some(t@));
                        assert(key_seen(ks, k as int, t@));
                        fidx = fidx.update(m as int, k as int);
                    }
                    found[m] = (t.clone(), copy);
                    records.push(rec);
                    proof {
                        assert forall|j: int| 0 <= j < k + 1 && (#[trigger] ks[j]) is Some implies exists|m2: int|
                            0 <= m2 < found@.len() && Some(found@[m2].0@) == ks[j] by {
                            if j == k {
                                assert(found@[m as int].0@ == t@);
                            } else {
                                let m2 = choose|m2: int|
                                    0 <= m2 < before.len() && Some(before[m2].0@) == ks[j];
                                assert(found@[m2].0@ == before[m2].0@);
                            }
                        }
                    }
                } else {
                    proof {
                        if key_seen(ks, k as int, t@) {
                            let j = choose|j: int| 0 <= j < k && j < ks.len() && #[trigger] ks[j] == Some(t@);
                            assert(ks[j] is Some);
                        }
                        fidx = fidx.push(k as int);
                    }
                    found.push((t.clone(), copy));
                    proof {
                        assert forall|j: int| 0 <= j < k + 1 && (#[trigger] ks[j]) is Some implies exists|m2: int|
                            0 <= m2 < found@.len() && Some(found@[m2].0@) == ks[j] by {
                            if j == k {
                                assert(found@[before.len() as int].0@ == t@);
                            } else {
                                let m2 = choose|m2: int|
                                    0 <= m2 < before.len() && Some(before[m2].0@) == ks[j];
                                assert(found@[m2].0@ == before[m2].0@);
                            }
                        }
                    }
                }
            },
        }
        assert(k < keys.len());
        k = k + 1;
    }
    // Hand out the kept copies; their order is of no meaning.
    let ghost fin = found@;
    let ghost nf = found@.len();
    let mut out: Vec<Json> = Vec::new();
    while found.len() > 0
        invariant
            found@ == fin.subrange(0, found@.len() as int),
            nf == fin.len(),
            out@.len() == nf - found@.len(),
            forall|i: int| 0 <= i < out@.len() ==> #[trigger] out@[i] == fin[nf - 1 - i].1,
        decreases found.len(),
    {
        let (_, rec) = found.pop().unwrap();
        out.push(rec);
        assert(found@ =~= fin.subrange(0, found@.len() as int));
    }
    proof {
        assert(orig.subrange(0, n as int) =~= orig);
        let idx = Seq::new(nf, |i: int| fidx[nf - 1 - i]);
        assert forall|i: int| 0 <= i < out@.len() implies is_last_with_key(ks, #[trigger] idx[i])
            && same(out@[i], orig[idx[i]]) by {
            let m = nf - 1 - i;
            assert(0 <= fidx[m] < n);
            assert forall|q: int| idx[i] < q < ks.len() implies #[trigger] ks[q] != ks[idx[i]] by {}
        }
        assert forall|i1: int, i2: int|
            0 <= i1 < out@.len() && 0 <= i2 < out@.len() && i1 != i2 implies #[trigger] idx[i1]
            != #[trigger] idx[i2] by {
            let m1 = nf - 1 - i1;
            let m2 = nf - 1 - i2;
            assert(fin[m1].0@ != fin[m2].0@);
        }
        assert forall|j: int| #[trigger] is_last_with_key(ks, j) implies exists|i: int|
            0 <= i < out@.len() && idx[i] == j by {
            let m = choose|m: int| 0 <= m < fin.len() && Some(fin[m].0@) == ks[j];
            let f = fidx[m];
            if f < j {
                assert(ks[j] == ks[f]);
            } else if j < f {
                assert(ks[f] == ks[j]);
            }
            assert(idx[nf - 1 - m] == j);
        }
        assert(picks_last(orig, ks, out@, idx));
    }
    out
}

/// Extraction of duplicate records by a dotted key path.
pub trait DedupExtract<T> {
    fn dedup_extract_by_dotnotation(&mut self, key: &str) -> Vec<T>;
}

impl DedupExtract<Json> for Vec<Json> {
    /// Keeps in `self` the records whose key (the JSON text of the value at
    /// `key`) occurred earlier, drops those on which `key` does not resolve,
    /// and returns one copy of the last record for each key.
    fn dedup_extract_by_dotnotation(&mut self, key: &str) -> (r: Vec<Json>)
        ensures
            final(self)@ == extra_occurrences(old(self)@, keys_of(old(self)@, key@)),
            is_dedup_of(old(self)@, keys_of(old(self)@, key@), r@),
    {
        let mut keys: Vec<Option<String>> = Vec::new();
        let mut i: usize = 0;
        while i < self.len()
            invariant
                i <= self.len(),
                keys@.len() == i,
                key_views(keys@) == keys_of(self@, key@).subrange(0, i as int),
            decreases self.len() - i,
        {
            let k = match self[i].get_by_dotnotation(key) {
                Some(v) => Some(json_text(v)),
                None => None,
            };
            let ghost before = keys@;
            keys.push(k);
            proof {
                assert(keys@[i as int] == k);
                assert(key_views(keys@)[i as int] == keys_of(self@, key@)[i as int]);
                assert forall|j: int| 0 <= j < i implies key_views(keys@)[j] == key_views(before)[j] by {
                    assert(keys@[j] == before[j]);
                }
            }
            i = i + 1;
            assert(key_views(keys@) =~= keys_of(self@, key@).subrange(0, i as int));
        }
        assert(key_views(keys@) =~= keys_of(self@, key@));
        extract_by_keys(self, &keys)
    }
}

} // verus!
