//! Facts about sequences.
use vstd::prelude::*;

verus! {

/// What a filter keeps of the first `n + 1` items: what it keeps of the first
/// `n`, and the next if it is kept.
pub proof fn lemma_filter_next<T>(s: Seq<T>, n: int, keep: spec_fn(T) -> bool)
    requires
        0 <= n < s.len(),
    ensures
        s.take(n + 1).filter(keep) == if keep(s[n]) {
            s.take(n).filter(keep).push(s[n])
        } else {
            s.take(n).filter(keep)
        },
{
    reveal(Seq::filter);
    assert(s.take(n + 1).drop_last() =~= s.take(n));
    assert(s.take(n + 1).last() == s[n]);
}

/// Of no items, a filter keeps none.
pub proof fn lemma_filter_none<T>(s: Seq<T>, keep: spec_fn(T) -> bool)
    ensures
        s.take(0).filter(keep) == Seq::<T>::empty(),
{
    reveal(Seq::filter);
    assert(s.take(0).filter(keep) =~= Seq::<T>::empty());
}

/// A change of each item of a longer sequence.
pub proof fn lemma_map_push<T, U>(s: Seq<T>, x: T, f: spec_fn(T) -> U)
    ensures
        s.push(x).map_values(f) == s.map_values(f).push(f(x)),
{
    assert(s.push(x).map_values(f) =~= s.map_values(f).push(f(x)));
}

/// What is made of the items that are kept among the first `n + 1`.
pub proof fn lemma_made_next<T, U>(
    s: Seq<T>,
    n: int,
    keep: spec_fn(T) -> bool,
    make: spec_fn(T) -> U,
)
    requires
        0 <= n < s.len(),
    ensures
        s.take(n + 1).filter(keep).map_values(make) == if keep(s[n]) {
            s.take(n).filter(keep).map_values(make).push(make(s[n]))
        } else {
            s.take(n).filter(keep).map_values(make)
        },
        s.take(0).filter(keep).map_values(make) == Seq::<U>::empty(),
{
    lemma_filter_next(s, n, keep);
    lemma_filter_none(s, keep);
    assert(s.take(0).filter(keep).map_values(make) =~= Seq::<U>::empty());
    if keep(s[n]) {
        lemma_map_push(s.take(n).filter(keep), s[n], make);
    }
}

/// Nothing is made of no items.
pub proof fn lemma_made_none<T, U>(s: Seq<T>, keep: spec_fn(T) -> bool, make: spec_fn(T) -> U)
    ensures
        s.take(0).filter(keep).map_values(make) == Seq::<U>::empty(),
{
    lemma_filter_none(s, keep);
    assert(s.take(0).filter(keep).map_values(make) =~= Seq::<U>::empty());
}

/// The places up to `n`.
pub open spec fn places_to(n: int) -> Seq<int> {
    Seq::new(n as nat, |i: int| i)
}

/// The places up to `n + 1` that are kept.
pub proof fn lemma_places_next(n: int, keep: spec_fn(int) -> bool)
    requires
        n >= 0,
    ensures
        places_to(0).filter(keep) == Seq::<int>::empty(),
        places_to(n + 1).filter(keep) == if keep(n) {
            places_to(n).filter(keep).push(n)
        } else {
            places_to(n).filter(keep)
        },
{
    reveal(Seq::filter);
    assert(places_to(n + 1).drop_last() =~= places_to(n));
    assert(places_to(n + 1).last() == n);
    assert(places_to(0).filter(keep) =~= Seq::<int>::empty());
}

} // verus!
