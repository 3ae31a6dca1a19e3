use vstd::prelude::*;

verus! {

/// The text after the last `/` of `s`; all of `s` when it holds none.
pub open spec fn last_component(s: Seq<char>) -> Seq<char>
    decreases s.len(),
{
    if s.len() == 0 {
        s
    } else if s.last() == '/' {
        Seq::empty()
    } else {
        last_component(s.drop_last()).push(s.last())
    }
}

/// Relies on `str::rsplit` with the pattern `'/'`: its first item is the
/// text after the last `/`, or the whole text when there is none.
#[verifier::external_body]
fn after_last_slash(s: &str) -> (r: String)
    ensures
        r@ == last_component(s@),
{
    s.rsplit('/').next().unwrap_or(s).to_string()
}

/// What matching `name` against the glob `pattern` gives: whether it matches,
/// or `None` where `pattern` is not a valid glob.
pub uninterp spec fn glob_outcome(pattern: Seq<char>, name: Seq<char>) -> Option<bool>;

/// Relies on glob's `Pattern::new` and `Pattern::matches`: the outcome
/// depends on the two texts alone.
#[verifier::external_body]
fn glob_matches(pattern: &str, name: &str) -> (r: Option<bool>)
    ensures
        r == glob_outcome(pattern@, name@),
{
    glob::Pattern::new(pattern).ok().map(|p| p.matches(name))
}

/// The texts of some strings.
pub open spec fn texts(v: Seq<String>) -> Seq<Seq<char>> {
    Seq::new(v.len(), |i: int| v[i]@)
}

/// The keys whose outcome is `Some(true)`, in their order.
pub open spec fn accepted(keys: Seq<Seq<char>>, outcomes: Seq<Option<bool>>) -> Seq<Seq<char>>
    decreases keys.len(),
{
    if keys.len() == 0 {
        Seq::empty()
    } else {
        let front = accepted(keys.drop_last(), outcomes);
        if outcomes[keys.len() - 1] == Some(true) {
            front.push(keys.last())
        } else {
            front
        }
    }
}

/// Some outcome is `None`.
pub open spec fn any_failed(outcomes: Seq<Option<bool>>) -> bool {
    exists|i: int| 0 <= i < outcomes.len() && outcomes[i] is None
}

/// What matching the file name of each key against `pattern` gives.
pub open spec fn outcomes_of(keys: Seq<Seq<char>>, pattern: Seq<char>) -> Seq<Option<bool>> {
    Seq::new(keys.len(), |i: int| glob_outcome(pattern, last_component(keys[i])))
}

/// Keeps the keys whose outcome (`outcomes[i]` for `keys[i]`) is a match, in
/// listing order; `None` where some outcome says the pattern is invalid.
pub fn select_by_outcomes(keys: &Vec<String>, outcomes: &Vec<Option<bool>>) -> (r: Option<Vec<String>>)
    requires
        keys@.len() == outcomes@.len(),
    ensures
        r is None <==> any_failed(outcomes@),
        r matches Some(v) ==> texts(v@) == accepted(texts(keys@), outcomes@),
{
    let mut out: Vec<String> = Vec::new();
    let mut i: usize = 0;
    while i < keys.len()
        invariant
            i <= keys.len(),
            keys@.len() == outcomes@.len(),
            forall|j: int| 0 <= j < i ==> outcomes@[j] is Some,
            texts(out@) == accepted(texts(keys@).subrange(0, i as int), outcomes@),
        decreases keys.len() - i,
    {
        let ghost before = out@;
        let ghost pre = texts(keys@).subrange(0, i as int);
        let ghost post = texts(keys@).subrange(0, i + 1);
        assert(post.drop_last() =~= pre);
        match outcomes[i] {
            None => {
                return None;
            },
            Some(true) => {
                out.push(keys[i].clone());
                assert(texts(out@) =~= texts(before).push(keys@[i as int]@));
            },
            Some(false) => {},
        }
        i = i + 1;
    }
    assert(texts(keys@).subrange(0, i as int) =~= texts(keys@));
    Some(out)
}

/// Keeps the listed keys whose file name (the text after the last `/`) the
/// glob `pattern` matches, in listing order; `None` where the pattern is not a
/// valid glob for some name.
pub fn select_matching_keys(keys: &Vec<String>, pattern: &str) -> (r: Option<Vec<String>>)
    ensures
        r is None <==> any_failed(outcomes_of(texts(keys@), pattern@)),
        r matches Some(v) ==> texts(v@) == accepted(texts(keys@), outcomes_of(texts(keys@), pattern@)),
{
    let mut outcomes: Vec<Option<bool>> = Vec::new();
    let mut i: usize = 0;
    while i < keys.len()
        invariant
            i <= keys.len(),
            outcomes@ == outcomes_of(texts(keys@), pattern@).subrange(0, i as int),
        decreases keys.len() - i,
    {
        let name = after_last_slash(keys[i].as_str());
        let o = glob_matches(pattern, name.as_str());
        outcomes.push(o);
        i = i + 1;
        assert(outcomes@ =~= outcomes_of(texts(keys@), pattern@).subrange(0, i as int));
    }
    assert(outcomes@ =~= outcomes_of(texts(keys@), pattern@));
    select_by_outcomes(keys, &outcomes)
}

} // verus!
