//! Cutting and trimming sequences.

use vstd::prelude::*;

verus! {

/// How many elements stand in front of the first one that satisfies `p`; all
/// of them where none does.
pub open spec fn until<T>(s: Seq<T>, p: spec_fn(T) -> bool) -> nat
    decreases s.len(),
{
    if s.len() == 0 || p(s[0]) {
        0
    } else {
        1 + until(s.skip(1), p)
    }
}

/// How many elements are left once those at the end that satisfy `p` are gone.
pub open spec fn without_end<T>(s: Seq<T>, p: spec_fn(T) -> bool) -> nat
    decreases s.len(),
{
    if s.len() == 0 || !p(s.last()) {
        s.len()
    } else {
        without_end(s.drop_last(), p)
    }
}

/// `s` without the elements that satisfy `p` at its front.
pub open spec fn trim_start<T>(s: Seq<T>, p: spec_fn(T) -> bool) -> Seq<T> {
    s.skip(until(s, |x: T| !p(x)) as int)
}

/// `s` without the elements that satisfy `p` at its end.
pub open spec fn trim_end<T>(s: Seq<T>, p: spec_fn(T) -> bool) -> Seq<T> {
    s.take(without_end(s, p) as int)
}

/// `s` without the elements that satisfy `p` at either end.
pub open spec fn trim<T>(s: Seq<T>, p: spec_fn(T) -> bool) -> Seq<T> {
    trim_end(trim_start(s, p), p)
}

/// The pieces of `s` between the elements that satisfy `p`. There is one piece
/// more than there are such elements.
pub open spec fn split<T>(s: Seq<T>, p: spec_fn(T) -> bool) -> Seq<Seq<T>>
    decreases s.len(),
{
    let n = until(s, p);
    if n >= s.len() {
        seq![s]
    } else {
        seq![s.take(n as int)] + split(s.skip(n as int + 1), p)
    }
}

/// What `until` counts.
pub proof fn lemma_until<T>(s: Seq<T>, p: spec_fn(T) -> bool)
    ensures
        until(s, p) <= s.len(),
        forall|i: int| 0 <= i < until(s, p) ==> !p(#[trigger] s[i]),
        until(s, p) < s.len() ==> p(s[until(s, p) as int]),
    decreases s.len(),
{
    if s.len() != 0 && !p(s[0]) {
        lemma_until(s.skip(1), p);
        assert forall|i: int| 0 <= i < until(s, p) implies !p(#[trigger] s[i]) by {
            if i > 0 {
                assert(s.skip(1)[i - 1] == s[i]);
            }
        }
    }
}

/// The properties of `until` hold of one number only.
pub proof fn lemma_until_is<T>(s: Seq<T>, p: spec_fn(T) -> bool, n: nat)
    requires
        n <= s.len(),
        forall|i: int| 0 <= i < n ==> !p(#[trigger] s[i]),
        n < s.len() ==> p(s[n as int]),
    ensures
        until(s, p) == n,
{
    lemma_until(s, p);
    let m = until(s, p);
    if m < n {
        assert(!p(s[m as int]));
    } else if n < m {
        assert(!p(s[n as int]));
    }
}

/// What `without_end` counts.
pub proof fn lemma_without_end<T>(s: Seq<T>, p: spec_fn(T) -> bool)
    ensures
        without_end(s, p) <= s.len(),
        forall|i: int| without_end(s, p) <= i < s.len() ==> p(#[trigger] s[i]),
        without_end(s, p) > 0 ==> !p(s[without_end(s, p) - 1]),
    decreases s.len(),
{
    if s.len() != 0 && p(s.last()) {
        lemma_without_end(s.drop_last(), p);
        assert forall|i: int| without_end(s, p) <= i < s.len() implies p(#[trigger] s[i]) by {
            if i < s.len() - 1 {
                assert(s.drop_last()[i] == s[i]);
            }
        }
    }
}

/// The properties of `without_end` hold of one number only.
pub proof fn lemma_without_end_is<T>(s: Seq<T>, p: spec_fn(T) -> bool, n: nat)
    requires
        n <= s.len(),
        forall|i: int| n <= i < s.len() ==> p(#[trigger] s[i]),
        n > 0 ==> !p(s[n - 1]),
    ensures
        without_end(s, p) == n,
{
    lemma_without_end(s, p);
    let m = without_end(s, p);
    if m < n {
        assert(p(s[n - 1]));
    } else if n < m {
        assert(p(s[m - 1]));
    }
}

/// Nothing is trimmed where neither end satisfies `p`.
pub proof fn lemma_trim_nothing<T>(s: Seq<T>, p: spec_fn(T) -> bool)
    requires
        s.len() > 0 ==> !p(s[0]) && !p(s.last()),
    ensures
        trim(s, p) == s,
{
    assert(trim_start(s, p) =~= s);
    assert(trim_end(s, p) =~= s);
}

/// Where `s` begins and ends without the elements at either end that satisfy
/// `p`, which is what `satisfies` tells.
pub(crate) fn trim_bounds<T: Copy, F: Fn(T) -> bool>(
    s: &[T],
    satisfies: F,
    Ghost(p): Ghost<spec_fn(T) -> bool>,
) -> (range: (usize, usize))
    requires
        forall|x: T| call_requires(satisfies, (x,)),
        forall|x: T, yes: bool| #[trigger] call_ensures(satisfies, (x,), yes) ==> yes == p(x),
    ensures
        range.0 <= range.1 <= s@.len(),
        s@.subrange(range.0 as int, range.1 as int) == trim(s@, p),
{
    let ghost not_p = |x: T| !p(x);
    let mut from: usize = 0;
    while from < s.len() && satisfies(s[from])
        invariant
            from <= s@.len(),
            forall|x: T| call_requires(satisfies, (x,)),
            forall|x: T, yes: bool| #[trigger] call_ensures(satisfies, (x,), yes) ==> yes == p(x),
            forall|i: int| 0 <= i < from ==> p(#[trigger] s@[i]),
        ensures
            from <= s@.len(),
            forall|i: int| 0 <= i < from ==> p(#[trigger] s@[i]),
            from < s@.len() ==> !p(s@[from as int]),
        decreases s@.len() - from,
    {
        from += 1;
    }
    proof {
        lemma_until_is(s@, not_p, from as nat);
    }
    let mut to: usize = s.len();
    while to > from && satisfies(s[to - 1])
        invariant
            from <= to <= s@.len(),
            forall|x: T| call_requires(satisfies, (x,)),
            forall|x: T, yes: bool| #[trigger] call_ensures(satisfies, (x,), yes) ==> yes == p(x),
            forall|i: int| to <= i < s@.len() ==> p(#[trigger] s@[i]),
        ensures
            from <= to <= s@.len(),
            forall|i: int| to <= i < s@.len() ==> p(#[trigger] s@[i]),
            to > from ==> !p(s@[to - 1]),
        decreases to,
    {
        to -= 1;
    }
    proof {
        let rest = s@.skip(from as int);
        assert(trim_start(s@, p) =~= rest);
        lemma_without_end_is(rest, p, (to - from) as nat);
        assert(s@.subrange(from as int, to as int) =~= rest.take(to - from));
    }
    (from, to)
}

} // verus!
