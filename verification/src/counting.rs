//! Counting and first-match removal in sequences.

use vstd::prelude::*;

verus! {

/// How many items of a sequence satisfy a predicate.
pub open spec fn tally<T>(s: Seq<T>, p: spec_fn(T) -> bool) -> nat
    decreases s.len(),
{
    if s.len() == 0 {
        0
    } else {
        tally(s.drop_last(), p) + (if p(s.last()) { 1nat } else { 0nat })
    }
}

/// The place of the first item that satisfies a predicate, or the length if there is none.
pub open spec fn first_place<T>(s: Seq<T>, p: spec_fn(T) -> bool) -> int
    decreases s.len(),
{
    if s.len() == 0 {
        0
    } else {
        let before = first_place(s.drop_last(), p);
        if before < s.len() - 1 {
            before
        } else if p(s.last()) {
            s.len() - 1
        } else {
            s.len() as int
        }
    }
}

/// A sequence without the first item that satisfies a predicate.
pub open spec fn without_first<T>(s: Seq<T>, p: spec_fn(T) -> bool) -> Seq<T> {
    if first_place(s, p) < s.len() {
        s.remove(first_place(s, p))
    } else {
        s
    }
}

/// `first_place` is the least place whose item satisfies the predicate.
pub proof fn first_place_is_first<T>(s: Seq<T>, p: spec_fn(T) -> bool)
    ensures
        0 <= first_place(s, p) <= s.len(),
        first_place(s, p) < s.len() ==> p(s[first_place(s, p)]),
        forall|i: int| 0 <= i < first_place(s, p) ==> !p(#[trigger] s[i]),
    decreases s.len(),
{
    if s.len() > 0 {
        first_place_is_first(s.drop_last(), p);
        let b = first_place(s.drop_last(), p);
        assert forall|i: int| 0 <= i < first_place(s, p) implies !p(#[trigger] s[i]) by {
            if i < s.len() - 1 {
                assert(s.drop_last()[i] == s[i]);
            }
        }
        if b < s.len() - 1 {
            assert(s.drop_last()[b] == s[b]);
        }
    }
}

/// A place whose item is the first to satisfy the predicate is `first_place`.
pub proof fn first_place_unique<T>(s: Seq<T>, p: spec_fn(T) -> bool, i: int)
    requires
        0 <= i <= s.len(),
        i < s.len() ==> p(s[i]),
        forall|j: int| 0 <= j < i ==> !p(#[trigger] s[j]),
    ensures
        first_place(s, p) == i,
{
    first_place_is_first(s, p);
    let f = first_place(s, p);
    if f < i {
        assert(!p(s[f]));
    } else if i < f {
        assert(!p(s[i]));
    }
}

/// Counting after appending.
pub proof fn tally_push<T>(s: Seq<T>, x: T, p: spec_fn(T) -> bool)
    ensures
        tally(s.push(x), p) == tally(s, p) + (if p(x) { 1nat } else { 0nat }),
{
    assert(s.push(x).drop_last() =~= s);
}

/// Counting after taking one item out.
pub proof fn tally_remove<T>(s: Seq<T>, i: int, p: spec_fn(T) -> bool)
    requires
        0 <= i < s.len(),
    ensures
        tally(s, p) == tally(s.remove(i), p) + (if p(s[i]) { 1nat } else { 0nat }),
    decreases s.len(),
{
    if i == s.len() - 1 {
        assert(s.remove(i) =~= s.drop_last());
    } else {
        tally_remove(s.drop_last(), i, p);
        assert(s.remove(i).drop_last() =~= s.drop_last().remove(i));
        assert(s.remove(i).last() == s.last());
        assert(s.drop_last()[i] == s[i]);
    }
}

/// Counting after putting one item in.
pub proof fn tally_insert<T>(s: Seq<T>, i: int, x: T, p: spec_fn(T) -> bool)
    requires
        0 <= i <= s.len(),
    ensures
        tally(s.insert(i, x), p) == tally(s, p) + (if p(x) { 1nat } else { 0nat }),
{
    tally_remove(s.insert(i, x), i, p);
    assert(s.insert(i, x).remove(i) =~= s);
}

/// Something is counted exactly when something satisfies the predicate.
pub proof fn tally_positive<T>(s: Seq<T>, p: spec_fn(T) -> bool)
    ensures
        tally(s, p) > 0 <==> exists|i: int| 0 <= i < s.len() && p(#[trigger] s[i]),
    decreases s.len(),
{
    if s.len() > 0 {
        tally_positive(s.drop_last(), p);
        if tally(s.drop_last(), p) > 0 {
            let i = choose|i: int| 0 <= i < s.drop_last().len() && p(#[trigger] s.drop_last()[i]);
            assert(p(s[i]));
        }
        if exists|i: int| 0 <= i < s.len() && p(#[trigger] s[i]) {
            let i = choose|i: int| 0 <= i < s.len() && p(#[trigger] s[i]);
            if i < s.len() - 1 {
                assert(p(s.drop_last()[i]));
            }
        }
    }
}

/// Counting a first-match removal.
pub proof fn tally_without_first<T>(s: Seq<T>, p: spec_fn(T) -> bool, q: spec_fn(T) -> bool)
    ensures
        first_place(s, p) < s.len() ==> tally(s, q) == tally(without_first(s, p), q) + (if q(
            s[first_place(s, p)],
        ) {
            1nat
        } else {
            0nat
        }),
        first_place(s, p) == s.len() ==> without_first(s, p) == s,
        first_place(s, p) < s.len() <==> tally(s, p) > 0,
{
    first_place_is_first(s, p);
    tally_positive(s, p);
    if first_place(s, p) < s.len() {
        tally_remove(s, first_place(s, p), q);
    } else if tally(s, p) > 0 {
        let i = choose|i: int| 0 <= i < s.len() && p(#[trigger] s[i]);
        assert(!p(s[i]));
    }
}

/// Counting by predicates that agree on the sequence.
pub proof fn tally_agrees<T>(s: Seq<T>, p: spec_fn(T) -> bool, q: spec_fn(T) -> bool)
    requires
        forall|i: int| 0 <= i < s.len() ==> p(#[trigger] s[i]) == q(s[i]),
    ensures
        tally(s, p) == tally(s, q),
    decreases s.len(),
{
    if s.len() > 0 {
        assert forall|i: int| 0 <= i < s.drop_last().len() implies p(#[trigger] s.drop_last()[i]) == q(s.drop_last()[i]) by {
            assert(s.drop_last()[i] == s[i]);
        }
        tally_agrees(s.drop_last(), p, q);
        assert(p(s[s.len() - 1]) == q(s[s.len() - 1]));
    }
}

} // verus!
