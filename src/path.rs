use vstd::prelude::*;

use crate::json::{member, Json};

verus! {

/// The pieces of `s` between the dots: `"a..b"` gives `"a"`, `""` and `"b"`.
/// There is always at least one piece.
pub open spec fn segments(s: Seq<char>) -> Seq<Seq<char>>
    decreases s.len(),
{
    if s.len() == 0 {
        seq![Seq::<char>::empty()]
    } else {
        let front = segments(s.drop_last());
        if s.last() == '.' {
            front.push(Seq::<char>::empty())
        } else {
            front.update(front.len() - 1, front.last().push(s.last()))
        }
    }
}

/// Follows `path` from `v`, one object member per segment.
pub open spec fn resolve(v: Json, path: Seq<Seq<char>>) -> Option<Json>
    decreases path.len(),
{
    if path.len() == 0 {
        Some(v)
    } else {
        match member(v, path[0]) {
            Some(child) => resolve(child, path.drop_first()),
            None => None,
        }
    }
}

/// The value that the dotted key `key` addresses in `v`.
#[verifier::opaque]
pub open spec fn at_path(v: Json, key: Seq<char>) -> Option<Json> {
    resolve(v, segments(key))
}

/// `s` holds no dot.
pub open spec fn dotless(s: Seq<char>) -> bool {
    forall|i: int| 0 <= i < s.len() ==> s[i] != '.'
}

/// The names joined by dots, in order.
pub open spec fn join_dotted(names: Seq<Seq<char>>) -> Seq<char>
    decreases names.len(),
{
    if names.len() <= 1 {
        if names.len() == 1 {
            names[0]
        } else {
            Seq::empty()
        }
    } else {
        join_dotted(names.drop_last()).push('.') + names.last()
    }
}

proof fn lemma_segments_nonempty(s: Seq<char>)
    ensures
        segments(s).len() >= 1,
    decreases s.len(),
{
    if s.len() > 0 {
        lemma_segments_nonempty(s.drop_last());
    }
}

proof fn lemma_segments_dotless_suffix(s: Seq<char>, t: Seq<char>)
    requires
        dotless(t),
    ensures
        segments(s + t) == segments(s).update(
            segments(s).len() - 1,
            segments(s).last() + t,
        ),
    decreases t.len(),
{
    lemma_segments_nonempty(s);
    if t.len() == 0 {
        assert(s + t =~= s);
        assert(segments(s).last() + t =~= segments(s).last());
        assert(segments(s).update(segments(s).len() - 1, segments(s).last() + t) =~= segments(s));
    } else {
        let u = t.drop_last();
        assert(dotless(u));
        lemma_segments_dotless_suffix(s, u);
        assert((s + t).drop_last() =~= s + u);
        assert((s + t).last() == t.last());
        assert(t.last() == t[t.len() - 1]);
        assert((segments(s).last() + u).push(t.last()) =~= segments(s).last() + t);
        assert(segments(s + t) =~= segments(s).update(segments(s).len() - 1, segments(s).last() + t));
    }
}

proof fn lemma_segments_of_join(names: Seq<Seq<char>>)
    requires
        names.len() >= 1,
        forall|i: int| 0 <= i < names.len() ==> dotless(#[trigger] names[i]),
    ensures
        segments(join_dotted(names)) == names,
    decreases names.len(),
{
    let t = names.last();
    assert(dotless(names[names.len() - 1]));
    if names.len() == 1 {
        lemma_segments_dotless_suffix(Seq::empty(), t);
        assert(Seq::<char>::empty() + t =~= t);
        assert(Seq::<char>::empty() + t =~= names[0]);
        assert(segments(join_dotted(names)) =~= names);
    } else {
        let front = names.drop_last();
        assert forall|i: int| 0 <= i < front.len() implies dotless(#[trigger] front[i]) by {
            assert(front[i] == names[i]);
        }
        lemma_segments_of_join(front);
        let j = join_dotted(front).push('.');
        assert(j.drop_last() =~= join_dotted(front));
        assert(segments(j) == segments(join_dotted(front)).push(Seq::<char>::empty()));
        lemma_segments_dotless_suffix(j, t);
        assert(Seq::<char>::empty() + t =~= t);
        assert(segments(join_dotted(names)) =~= names);
    }
}

/// Looking up dotted names joined by dots (`"a.b.c"`) gives what looking up
/// each name in turn, one level of nesting after another, gives.
pub proof fn lemma_dotted_path_steps(v: Json, names: Seq<Seq<char>>)
    requires
        names.len() >= 1,
        forall|i: int| 0 <= i < names.len() ==> dotless(#[trigger] names[i]),
    ensures
        at_path(v, join_dotted(names)) == resolve(v, names),
{
    reveal(at_path);
    lemma_segments_of_join(names);
}

/// Relies on `str::split` with the pattern `'.'`: the substrings between the
/// dots, in order, empty ones included.
#[verifier::external_body]
fn split_dots(key: &str) -> (r: Vec<String>)
    ensures
        r@.len() == segments(key@).len(),
        forall|i: int| 0 <= i < r@.len() ==> #[trigger] r@[i]@ == segments(key@)[i],
{
    key.split('.').map(|p| p.to_string()).collect()
}

/// Lookup of a value by a dotted key path (`"data.id"`).
pub trait Dotnotation: Sized {
    spec fn value_at(&self, key: Seq<char>) -> Option<Self>;

    fn get_by_dotnotation(&self, key: &str) -> (r: Option<&Self>)
        ensures
            r matches Some(x) ==> self.value_at(key@) == Some(*x),
            r is None <==> self.value_at(key@) is None,
    ;
}

impl Dotnotation for Json {
    open spec fn value_at(&self, key: Seq<char>) -> Option<Json> {
        at_path(*self, key)
    }

    fn get_by_dotnotation(&self, key: &str) -> (r: Option<&Json>) {
        reveal(at_path);
        let segs = split_dots(key);
        let ghost path = segments(key@);
        let mut cur: &Json = self;
        let mut i: usize = 0;
        assert(path.subrange(0, path.len() as int) =~= path);
        while i < segs.len()
            invariant
                i <= segs.len(),
                path.len() == segs@.len(),
                forall|j: int| 0 <= j < segs@.len() ==> #[trigger] segs@[j]@ == path[j],
                at_path(*self, key@) == resolve(*cur, path.subrange(i as int, path.len() as int)),
            decreases segs.len() - i,
        {
            let ghost rest = path.subrange(i as int, path.len() as int);
            assert(rest.drop_first() =~= path.subrange(i + 1, path.len() as int));
            match cur.member_named(&segs[i]) {
                Some(child) => {
                    cur = child;
                },
                None => {
                    return None;
                },
            }
            i = i + 1;
        }
        assert(path.subrange(i as int, path.len() as int) =~= Seq::<Seq<char>>::empty());
        Some(cur)
    }
}

} // verus!
