//! Items grouped by operation.
use vstd::prelude::*;
use crate::cmd::Operation;

verus! {

/// Items under the operation that each belongs to. No operation occurs twice.
#[derive(Debug)]
pub struct Grouped<T> {
    groups: Vec<(Operation, Vec<T>)>,
}

/// The map of a list of groups.
pub open spec fn map_of<T>(groups: Seq<(Operation, Vec<T>)>) -> Map<Operation, Seq<T>>
    decreases groups.len(),
{
    if groups.len() == 0 {
        Map::empty()
    } else {
        map_of(groups.drop_last()).insert(groups.last().0, groups.last().1@)
    }
}

/// No operation occurs twice.
pub open spec fn distinct_ops<T>(groups: Seq<(Operation, Vec<T>)>) -> bool {
    forall|i: int, j: int|
        0 <= i < j < groups.len() ==> (#[trigger] groups[i]).0 != (#[trigger] groups[j]).0
}

/// The group under an operation, empty where there is none.
pub open spec fn group<T>(m: Map<Operation, Seq<T>>, op: Operation) -> Seq<T> {
    if m.dom().contains(op) {
        m[op]
    } else {
        Seq::empty()
    }
}

/// The groups with one more item at the end of an operation's group.
pub open spec fn with_item<T>(m: Map<Operation, Seq<T>>, op: Operation, item: T) -> Map<
    Operation,
    Seq<T>,
> {
    m.insert(op, group(m, op).push(item))
}

proof fn lemma_map_of<T>(groups: Seq<(Operation, Vec<T>)>)
    requires
        distinct_ops(groups),
    ensures
        forall|op: Operation|
            map_of(groups).dom().contains(op) <==> exists|i: int|
                0 <= i < groups.len() && (#[trigger] groups[i]).0 == op,
        forall|i: int|
            0 <= i < groups.len() ==> map_of(groups).dom().contains((#[trigger] groups[i]).0)
                && map_of(groups)[groups[i].0] == groups[i].1@,
    decreases groups.len(),
{
    if groups.len() > 0 {
        let front = groups.drop_last();
        assert forall|i: int, j: int| 0 <= i < j < front.len() implies (#[trigger] front[i]).0 != (
        #[trigger] front[j]).0 by {
            assert(front[i] == groups[i] && front[j] == groups[j]);
        }
        lemma_map_of(front);
        assert forall|op: Operation|
            map_of(groups).dom().contains(op) <==> exists|i: int|
                0 <= i < groups.len() && (#[trigger] groups[i]).0 == op by {
            if map_of(groups).dom().contains(op) {
                if op == groups.last().0 {
                    assert(groups[groups.len() - 1].0 == op);
                } else {
                    assert(map_of(front).dom().contains(op));
                    let i = choose|i: int| 0 <= i < front.len() && (#[trigger] front[i]).0 == op;
                    assert(front[i] == groups[i]);
                    assert(groups[i].0 == op);
                }
            }
            if exists|i: int| 0 <= i < groups.len() && (#[trigger] groups[i]).0 == op {
                let i = choose|i: int| 0 <= i < groups.len() && (#[trigger] groups[i]).0 == op;
                if i < front.len() {
                    assert(front[i] == groups[i]);
                    assert(front[i].0 == op);
                    assert(map_of(front).dom().contains(op));
                }
            }
        }
        assert forall|i: int| 0 <= i < groups.len() implies map_of(groups).dom().contains(
            (#[trigger] groups[i]).0,
        ) && map_of(groups)[groups[i].0] == groups[i].1@ by {
            if i < front.len() {
                assert(front[i] == groups[i]);
                assert(groups[i].0 != groups[groups.len() - 1].0);
            }
        }
    }
}

impl<T> View for Grouped<T> {
    type V = Map<Operation, Seq<T>>;

    closed spec fn view(&self) -> Map<Operation, Seq<T>> {
        map_of(self.groups@)
    }
}

impl<T> Grouped<T> {
    /// No operation occurs twice.
    pub closed spec fn wf(self) -> bool {
        distinct_ops(self.groups@)
    }

    /// No groups.
    pub fn new() -> (r: Self)
        ensures
            r.wf(),
            r@ == Map::<Operation, Seq<T>>::empty(),
    {
        Grouped { groups: Vec::new() }
    }

    /// The place of an operation's group.
    fn position(&self, op: Operation) -> (r: Option<usize>)
        requires
            self.wf(),
        ensures
            match r {
                Some(i) => i < self.groups@.len() && self.groups@[i as int].0 == op,
                None => forall|i: int|
                    0 <= i < self.groups@.len() ==> (#[trigger] self.groups@[i]).0 != op,
            },
    {
        let mut i: usize = 0;
        while i < self.groups.len()
            invariant
                i <= self.groups@.len(),
                forall|j: int| 0 <= j < i ==> (#[trigger] self.groups@[j]).0 != op,
            decreases self.groups@.len() - i,
        {
            if self.groups[i].0 == op {
                return Some(i);
            }
            i = i + 1;
        }
        None
    }

    /// Puts an item at the end of an operation's group.
    pub fn push(&mut self, op: Operation, item: T)
        requires
            old(self).wf(),
        ensures
            final(self).wf(),
            final(self)@ == with_item(old(self)@, op, item),
    {
        let ghost before = self.groups@;
        proof {
            lemma_map_of(before);
        }
        match self.position(op) {
            Some(i) => {
                let (_, mut items) = self.groups.remove(i);
                let ghost shorter = self.groups@;
                items.push(item);
                self.groups.insert(i, (op, items));
                proof {
                    let after = self.groups@;
                    assert(after =~= before.update(i as int, (op, items)));
                    assert(distinct_ops(after));
                    lemma_map_of(after);
                    assert(map_of(after) =~= with_item(map_of(before), op, item)) by {
                        assert forall|o: Operation|
                            map_of(after).dom().contains(o) == with_item(
                                map_of(before),
                                op,
                                item,
                            ).dom().contains(o) by {
                            if map_of(after).dom().contains(o) {
                                let k = choose|k: int|
                                    0 <= k < after.len() && (#[trigger] after[k]).0 == o;
                                assert(before[k].0 == o);
                            }
                            if map_of(before).dom().contains(o) {
                                let k = choose|k: int|
                                    0 <= k < before.len() && (#[trigger] before[k]).0 == o;
                                assert(after[k].0 == o);
                            }
                            assert(after[i as int].0 == op);
                        }
                        assert forall|o: Operation| map_of(after).dom().contains(o) implies map_of(
                            after,
                        )[o] == with_item(map_of(before), op, item)[o] by {
                            let k = choose|k: int|
                                0 <= k < after.len() && (#[trigger] after[k]).0 == o;
                            assert(before[k].0 == o);
                            assert(before[i as int].0 == op);
                            if k == i {
                                assert(after[k].1@ == before[k].1@.push(item));
                            } else {
                                assert(after[k] == before[k]);
                                assert(o != op);
                            }
                        }
                    }
                }
            },
            None => {
                let mut items: Vec<T> = Vec::new();
                items.push(item);
                self.groups.push((op, items));
                proof {
                    let after = self.groups@;
                    assert(after.drop_last() =~= before);
                    assert(items@ =~= Seq::<T>::empty().push(item));
                    assert(!map_of(before).dom().contains(op));
                }
            },
        }
    }

    /// Replaces an operation's group.
    pub fn insert(&mut self, op: Operation, items: Vec<T>)
        requires
            old(self).wf(),
        ensures
            final(self).wf(),
            final(self)@ == old(self)@.insert(op, items@),
    {
        let ghost before = self.groups@;
        proof {
            lemma_map_of(before);
        }
        match self.position(op) {
            Some(i) => {
                let _ = self.groups.remove(i);
                self.groups.insert(i, (op, items));
                proof {
                    let after = self.groups@;
                    assert(after =~= before.update(i as int, (op, items)));
                    assert(distinct_ops(after));
                    lemma_map_of(after);
                    assert forall|o: Operation|
                        map_of(after).dom().contains(o) == map_of(before).insert(
                            op,
                            items@,
                        ).dom().contains(o) by {
                        if map_of(after).dom().contains(o) {
                            let k = choose|k: int|
                                0 <= k < after.len() && (#[trigger] after[k]).0 == o;
                            assert(before[k].0 == o);
                        }
                        if map_of(before).dom().contains(o) {
                            let k = choose|k: int|
                                0 <= k < before.len() && (#[trigger] before[k]).0 == o;
                            assert(after[k].0 == o);
                        }
                        assert(after[i as int].0 == op);
                    }
                    assert forall|o: Operation| map_of(after).dom().contains(o) implies map_of(
                        after,
                    )[o] == map_of(before).insert(op, items@)[o] by {
                        let k = choose|k: int| 0 <= k < after.len() && (#[trigger] after[k]).0 == o;
                        assert(before[k].0 == o);
                        assert(before[i as int].0 == op);
                        if k != i {
                            assert(after[k] == before[k]);
                            assert(o != op);
                        }
                    }
                    assert(map_of(after) =~= map_of(before).insert(op, items@));
                }
            },
            None => {
                self.groups.push((op, items));
                proof {
                    let after = self.groups@;
                    assert(after.drop_last() =~= before);
                }
            },
        }
    }

    /// An operation's group.
    pub fn get(&self, op: Operation) -> (r: Option<&Vec<T>>)
        requires
            self.wf(),
        ensures
            match r {
                Some(v) => self@.dom().contains(op) && self@[op] == v@,
                None => !self@.dom().contains(op),
            },
    {
        proof {
            lemma_map_of(self.groups@);
        }
        match self.position(op) {
            Some(i) => Some(&self.groups[i].1),
            None => None,
        }
    }

    /// How many groups there are.
    pub fn len(&self) -> (r: usize)
        requires
            self.wf(),
        ensures
            r == self.count(),
    {
        self.groups.len()
    }

    /// How many groups there are.
    pub closed spec fn count(self) -> nat {
        self.groups@.len()
    }

    /// The operation of the group at a place.
    pub closed spec fn op_at(self, i: int) -> Operation {
        self.groups@[i].0
    }

    /// The places and the operations that have a group belong together, one
    /// for one.
    pub proof fn law_places(self)
        requires
            self.wf(),
        ensures
            forall|i: int| 0 <= i < self.count() ==> self@.dom().contains(#[trigger] self.op_at(i)),
            forall|i: int, j: int|
                0 <= i < j < self.count() ==> #[trigger] self.op_at(i) != #[trigger] self.op_at(j),
            forall|op: Operation|
                self@.dom().contains(op) ==> exists|i: int|
                    0 <= i < self.count() && #[trigger] self.op_at(i) == op,
    {
        lemma_map_of(self.groups@);
        assert forall|op: Operation| self@.dom().contains(op) implies exists|i: int|
            0 <= i < self.count() && #[trigger] self.op_at(i) == op by {
            let i = choose|i: int| 0 <= i < self.groups@.len() && (#[trigger] self.groups@[i]).0
                == op;
            assert(self.op_at(i) == op);
        }
    }

    /// The group at a place.
    pub fn at(&self, i: usize) -> (r: (Operation, &Vec<T>))
        requires
            self.wf(),
            i < self.count(),
        ensures
            r.0 == self.op_at(i as int),
            self@.dom().contains(r.0),
            self@[r.0] == r.1@,
    {
        proof {
            lemma_map_of(self.groups@);
        }
        (self.groups[i].0, &self.groups[i].1)
    }

    /// Whether there is no group.
    pub fn is_empty(&self) -> (r: bool)
        requires
            self.wf(),
        ensures
            r == (self@ == Map::<Operation, Seq<T>>::empty()),
    {
        proof {
            lemma_map_of(self.groups@);
            if self.groups@.len() > 0 {
                assert(self@.dom().contains(self.groups@[0].0));
            }
        }
        self.groups.len() == 0
    }
}

/// What is put into a group comes behind what it held, and the other groups stay
/// as they are.
pub proof fn law_pushed<T>(set: &mut Grouped<T>, op: Operation, item: T, r: (), other: Operation)
    requires
        old(set).wf(),
        call_ensures(Grouped::<T>::push, (set, op, item), r),
    ensures
        final(set)@.dom().contains(op),
        old(set)@.dom().contains(op) ==> final(set)@[op] == old(set)@[op].push(item),
        !old(set)@.dom().contains(op) ==> final(set)@[op] == seq![item],
        other != op ==> final(set)@.dom().contains(other) == old(set)@.dom().contains(other) && (
        old(set)@.dom().contains(other) ==> final(set)@[other] == old(set)@[other]),
{
    assert(Seq::<T>::empty().push(item) =~= seq![item]);
}

/// A group that is put in takes the place of the one before it, and is what is
/// read then.
pub proof fn law_inserted<T>(set: &mut Grouped<T>, op: Operation, items: Vec<T>, r: (), other: Operation)
    requires
        old(set).wf(),
        call_ensures(Grouped::<T>::insert, (set, op, items), r),
    ensures
        final(set)@.dom().contains(op),
        final(set)@[op] == items@,
        other != op ==> final(set)@.dom().contains(other) == old(set)@.dom().contains(other) && (
        old(set)@.dom().contains(other) ==> final(set)@[other] == old(set)@[other]),
{
}

/// What is read of a group is what is in it.
pub proof fn law_read<T>(set: &Grouped<T>, op: Operation, r: Option<&Vec<T>>, empty: bool)
    requires
        set.wf(),
        call_ensures(Grouped::<T>::get, (set, op), r),
        call_ensures(Grouped::<T>::is_empty, (set,), empty),
    ensures
        r is Some <==> set@.dom().contains(op),
        r is Some ==> r->0@ == set@[op],
        empty ==> r is None,
        r is Some ==> !empty,
{
}

} // verus!
