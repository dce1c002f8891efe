//! Sorting that keeps the order of items that rank the same.
use vstd::prelude::*;

verus! {

/// Items that have a rank.
pub trait Ranked: Sized {
    /// The item ranks before the other, or the same.
    spec fn le(self, other: Self) -> bool;

    /// Of two items one ranks before the other or the same.
    proof fn total(a: Self, b: Self)
        ensures
            a.le(b) || b.le(a),
    ;

    /// The ranks are transitive.
    proof fn transitive(a: Self, b: Self, c: Self)
        requires
            a.le(b),
            b.le(c),
        ensures
            a.le(c),
    ;

    /// Whether the item ranks before the other, or the same.
    fn not_after(&self, other: &Self) -> (r: bool)
        ensures
            r == self.le(*other),
    ;
}

/// The items come in the order of their ranks.
pub open spec fn in_order<T: Ranked>(v: Seq<T>) -> bool {
    forall|i: int, j: int| 0 <= i < j < v.len() ==> (#[trigger] v[i]).le(#[trigger] v[j])
}

/// The items that rank as `x` does, in order.
pub open spec fn ranked_as<T: Ranked>(v: Seq<T>, x: T) -> Seq<T>
    decreases v.len(),
{
    if v.len() == 0 {
        Seq::empty()
    } else if v.last().le(x) && x.le(v.last()) {
        ranked_as(v.drop_last(), x).push(v.last())
    } else {
        ranked_as(v.drop_last(), x)
    }
}

/// `after` is `before` in the order of ranks. Items that rank the same keep
/// their order, and none is lost or added.
pub open spec fn stably_sorted<T: Ranked>(before: Seq<T>, after: Seq<T>) -> bool {
    &&& in_order(after)
    &&& after.len() == before.len()
    &&& forall|x: T| #[trigger] ranked_as(after, x) == ranked_as(before, x)
}

proof fn lemma_ranked_concat<T: Ranked>(a: Seq<T>, b: Seq<T>, x: T)
    ensures
        ranked_as(a + b, x) == ranked_as(a, x) + ranked_as(b, x),
    decreases b.len(),
{
    if b.len() == 0 {
        assert(a + b =~= a);
        assert(ranked_as(a, x) + ranked_as(b, x) =~= ranked_as(a, x));
    } else {
        assert((a + b).drop_last() =~= a + b.drop_last());
        lemma_ranked_concat(a, b.drop_last(), x);
        assert(ranked_as(a + b, x) =~= ranked_as(a, x) + ranked_as(b, x));
    }
}

proof fn lemma_none_ranked<T: Ranked>(v: Seq<T>, item: T, x: T)
    requires
        forall|i: int| 0 <= i < v.len() ==> !(#[trigger] v[i]).le(item),
        x.le(item),
    ensures
        ranked_as(v, x) == Seq::<T>::empty(),
    decreases v.len(),
{
    if v.len() > 0 {
        let last = v[v.len() - 1];
        assert(!last.le(item));
        if last.le(x) {
            T::transitive(last, x, item);
        }
        assert forall|i: int| 0 <= i < v.drop_last().len() implies !(#[trigger] v.drop_last()[i]).le(
            item,
        ) by {
            assert(v.drop_last()[i] == v[i]);
        }
        lemma_none_ranked(v.drop_last(), item, x);
    }
}

proof fn lemma_insert_ranked<T: Ranked>(v: Seq<T>, item: T, at: int, x: T)
    requires
        0 <= at <= v.len(),
        forall|i: int| at <= i < v.len() ==> !(#[trigger] v[i]).le(item),
    ensures
        ranked_as(v.insert(at, item), x) == ranked_as(v.push(item), x),
{
    let a = v.take(at);
    let b = v.skip(at);
    assert(v =~= a + b);
    assert(v.insert(at, item) =~= (a + seq![item]) + b);
    assert(v.push(item) =~= (a + b) + seq![item]);
    lemma_ranked_concat(a + seq![item], b, x);
    lemma_ranked_concat(a, seq![item], x);
    lemma_ranked_concat(a + b, seq![item], x);
    lemma_ranked_concat(a, b, x);
    let one = ranked_as(seq![item], x);
    assert(seq![item].drop_last() =~= Seq::empty());
    assert(ranked_as(seq![item].drop_last(), x) =~= Seq::empty());
    if item.le(x) && x.le(item) {
        assert forall|i: int| 0 <= i < b.len() implies !(#[trigger] b[i]).le(item) by {
            assert(b[i] == v[at + i]);
        }
        lemma_none_ranked(b, item, x);
    } else {
        assert(one =~= Seq::empty());
    }
    assert(ranked_as(a, x) + one + ranked_as(b, x) =~= ranked_as(a, x) + ranked_as(b, x) + one);
}

proof fn lemma_insert_in_order<T: Ranked>(v: Seq<T>, item: T, at: int)
    requires
        in_order(v),
        0 <= at <= v.len(),
        at > 0 ==> v[at - 1].le(item),
        forall|i: int| at <= i < v.len() ==> !(#[trigger] v[i]).le(item),
    ensures
        in_order(v.insert(at, item)),
{
    let w = v.insert(at, item);
    assert forall|i: int, j: int| 0 <= i < j < w.len() implies (#[trigger] w[i]).le(#[trigger] w[j]) by {
        if j == at {
            assert(w[i] == v[i]);
            if i < at - 1 {
                assert(v[i].le(v[at - 1]));
                T::transitive(v[i], v[at - 1], item);
            }
        } else if i == at {
            assert(w[j] == v[j - 1]);
            T::total(item, v[j - 1]);
        } else if i < at && j > at {
            assert(w[i] == v[i] && w[j] == v[j - 1]);
        } else if i > at {
            assert(w[i] == v[i - 1] && w[j] == v[j - 1]);
        } else {
            assert(w[i] == v[i] && w[j] == v[j]);
        }
    }
}

/// Sorts items by their ranks. Items that rank the same keep their order.
pub fn sort<T: Ranked>(items: Vec<T>) -> (r: Vec<T>)
    ensures
        stably_sorted(items@, r@),
{
    let ghost all = items@;
    let mut r: Vec<T> = Vec::new();
    assert(all.take(0) =~= Seq::empty());
    for item in it: items
        invariant
            it.seq() == all,
            r@.len() == it.index(),
            in_order(r@),
            forall|x: T|
                #[trigger] ranked_as(r@, x) == ranked_as(all.take(it.index() as int), x),
    {
        let ghost n = it.index() as int;
        let ghost before = r@;
        let mut at: usize = r.len();
        while at > 0 && !r[at - 1].not_after(&item)
            invariant
                at <= r@.len(),
                r@ == before,
                forall|i: int| at <= i < before.len() ==> !(#[trigger] before[i]).le(item),
            decreases at,
        {
            at = at - 1;
        }
        proof {
            let next = all.take(n + 1);
            assert(next.drop_last() =~= all.take(n));
            lemma_insert_in_order(before, item, at as int);
            assert forall|x: T|
                #[trigger] ranked_as(before.insert(at as int, item), x) == ranked_as(next, x) by {
                lemma_insert_ranked(before, item, at as int, x);
                assert(before.push(item).drop_last() =~= before);
                assert(ranked_as(before, x) == ranked_as(all.take(n), x));
            }
        }
        r.insert(at, item);
        assert(r@ =~= before.insert(at as int, item));
    }
    assert(all.take(all.len() as int) =~= all);
    r
}

proof fn lemma_ranked_contains<T: Ranked>(v: Seq<T>, x: T)
    ensures
        ranked_as(v, x).contains(x) <==> v.contains(x),
    decreases v.len(),
{
    if v.len() > 0 {
        let front = v.drop_last();
        lemma_ranked_contains(front, x);
        let r = ranked_as(v, x);
        let before = ranked_as(front, x);
        if v.contains(x) {
            let i = choose|i: int| 0 <= i < v.len() && v[i] == x;
            if i < front.len() {
                assert(front[i] == x);
                let k = choose|k: int| 0 <= k < before.len() && before[k] == x;
                assert(r[k] == x);
            } else {
                T::total(x, x);
                assert(r[r.len() - 1] == x);
            }
        }
        if r.contains(x) {
            let k = choose|k: int| 0 <= k < r.len() && r[k] == x;
            if k < before.len() {
                assert(before[k] == x);
                let i = choose|i: int| 0 <= i < front.len() && front[i] == x;
                assert(v[i] == x);
            } else {
                assert(v[v.len() - 1] == x);
            }
        }
    }
}

/// Sorting neither loses an item nor adds one.
pub proof fn law_sorting_keeps_items<T: Ranked>(before: Seq<T>, after: Seq<T>, x: T)
    requires
        stably_sorted(before, after),
    ensures
        after.contains(x) <==> before.contains(x),
{
    lemma_ranked_contains(before, x);
    lemma_ranked_contains(after, x);
    assert(ranked_as(after, x) == ranked_as(before, x));
}

proof fn lemma_ranked_is_filter<T: Ranked>(v: Seq<T>, x: T, keep: spec_fn(T) -> bool)
    requires
        forall|y: T| #[trigger] keep(y) == (y.le(x) && x.le(y)),
    ensures
        ranked_as(v, x) == v.filter(keep),
    decreases v.len(),
{
    reveal(Seq::filter);
    if v.len() > 0 {
        lemma_ranked_is_filter(v.drop_last(), x, keep);
    } else {
        assert(v.filter(keep) =~= Seq::<T>::empty());
    }
}

proof fn lemma_ranked_count<T: Ranked>(v: Seq<T>, x: T)
    ensures
        ranked_as(v, x).to_multiset().count(x) == v.to_multiset().count(x),
    decreases v.len(),
{
    broadcast use vstd::seq_lib::group_to_multiset_ensures;
    if v.len() > 0 {
        lemma_ranked_count(v.drop_last(), x);
        T::total(x, x);
        assert(v =~= v.drop_last().push(v.last()));
    }
}

/// What is sorted holds every item, as often as it was there, and those that rank
/// the same keep their order.
pub proof fn lemma_stable<T: Ranked>(
    before: Seq<T>,
    after: Seq<T>,
    x: T,
    keep: spec_fn(T) -> bool,
)
    requires
        stably_sorted(before, after),
        forall|y: T| #[trigger] keep(y) == (y.le(x) && x.le(y)),
    ensures
        after.to_multiset() == before.to_multiset(),
        after.filter(keep) == before.filter(keep),
{
    lemma_ranked_is_filter(after, x, keep);
    lemma_ranked_is_filter(before, x, keep);
    assert(ranked_as(after, x) == ranked_as(before, x));
    assert forall|y: T| #[trigger] after.to_multiset().count(y) == before.to_multiset().count(y) by {
        lemma_ranked_count(after, y);
        lemma_ranked_count(before, y);
        assert(ranked_as(after, y) == ranked_as(before, y));
    }
    assert(after.to_multiset() =~= before.to_multiset());
}

/// Sorting puts the items into the order of their ranks. It keeps every item,
/// as often as it was there, and those that rank the same keep their order.
pub proof fn law_sorted<T: Ranked>(items: Vec<T>, r: Vec<T>, x: T)
    requires
        call_ensures(sort::<T>, (items,), r),
    ensures
        forall|i: int, j: int| 0 <= i < j < r@.len() ==> (#[trigger] r@[i]).le(#[trigger] r@[j]),
        r@.to_multiset() == items@.to_multiset(),
        r@.filter(|y: T| y.le(x) && x.le(y)) == items@.filter(|y: T| y.le(x) && x.le(y)),
{
    lemma_stable(items@, r@, x, |y: T| y.le(x) && x.le(y));
}

} // verus!
