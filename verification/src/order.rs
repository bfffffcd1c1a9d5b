//! Deterministic arrangement of ranked values.
use vstd::prelude::*;
use vstd::seq_lib::*;

verus! {

/// Values with a strict rank.
pub trait Ranked: Sized {
    /// Whether this value ranks strictly before another.
    spec fn ranks_before(self, other: Self) -> bool;

    /// Nothing ranks before itself, and ranks compose.
    proof fn rank_laws(a: Self, b: Self, c: Self)
        ensures
            !a.ranks_before(a),
            a.ranks_before(b) && b.ranks_before(c) ==> a.ranks_before(c),
            !b.ranks_before(a) && !c.ranks_before(b) ==> !c.ranks_before(a),
    ;

    fn comes_before(&self, other: &Self) -> (before: bool)
        ensures
            before == self.ranks_before(*other),
    ;
}

/// A list in which nothing ranks before what precedes it.
pub open spec fn arranged<T: Ranked>(list: Seq<T>) -> bool {
    forall|i: int, j: int|
        0 <= i < j < list.len() ==> !(#[trigger] list[j]).ranks_before(#[trigger] list[i])
}

/// A list in which everything ranks before what follows it.
pub open spec fn strictly_arranged<T: Ranked>(list: Seq<T>) -> bool {
    forall|i: int, j: int|
        0 <= i < j < list.len() ==> (#[trigger] list[i]).ranks_before(#[trigger] list[j])
}

proof fn lemma_insert_multiset<T>(list: Seq<T>, at: int, item: T)
    requires
        0 <= at <= list.len(),
    ensures
        list.insert(at, item).to_multiset() == list.to_multiset().insert(item),
{
    let grown = list.insert(at, item);
    assert(grown.remove(at) =~= list);
    to_multiset_remove(grown, at);
    assert(grown[at] == item);
    assert(grown.contains(item));
    assert(grown.to_multiset().count(item) > 0) by {
        grown.to_multiset_ensures();
    }
    assert(list.to_multiset().insert(item) =~= grown.to_multiset());
}

/// Arranges values by rank, keeping every one of them.
pub fn arrange<T: Ranked>(items: Vec<T>) -> (sorted: Vec<T>)
    ensures
        arranged(sorted@),
        sorted@.to_multiset() == items@.to_multiset(),
{
    let ghost original = items@;
    let mut rest = items;
    let mut sorted: Vec<T> = Vec::new();
    proof {
        Seq::<T>::empty().to_multiset_ensures();
        assert(sorted@ =~= Seq::<T>::empty());
        assert(sorted@.to_multiset().add(original.to_multiset()) =~= original.to_multiset());
    }
    while rest.len() > 0
        invariant
            arranged(sorted@),
            sorted@.to_multiset().add(rest@.to_multiset()) == original.to_multiset(),
        decreases rest@.len(),
    {
        let ghost before = rest@;
        let ghost placed = sorted@;
        let item = rest.pop().unwrap();
        let ghost next = item;
        let mut at: usize = 0;
        while at < sorted.len() && sorted[at].comes_before(&item)
            invariant
                at <= sorted@.len(),
                forall|i: int| 0 <= i < at ==> (#[trigger] sorted@[i]).ranks_before(item),
            decreases sorted@.len() - at,
        {
            at += 1;
        }
        sorted.insert(at, item);
        proof {
            let grown = sorted@;
            assert(grown =~= placed.insert(at as int, next));
            assert(before =~= rest@.push(next));
            to_multiset_build(rest@, next);
            lemma_insert_multiset(placed, at as int, next);
            assert(grown.to_multiset().add(rest@.to_multiset()) =~= placed.to_multiset().add(
                before.to_multiset(),
            ));
            assert forall|i: int, j: int| 0 <= i < j < grown.len() implies !(
            #[trigger] grown[j]).ranks_before(#[trigger] grown[i]) by {
                if i < at && j < at {
                    assert(!placed[j].ranks_before(placed[i]));
                } else if i < at && j == at {
                    T::rank_laws(placed[i], next, placed[i]);
                } else if i < at && j > at {
                    assert(!placed[j - 1].ranks_before(placed[i]));
                } else if i == at {
                    if j - 1 > at {
                        assert(!placed[j - 1].ranks_before(placed[at as int]));
                    } else {
                        T::rank_laws(placed[at as int], placed[at as int], next);
                    }
                    T::rank_laws(next, placed[at as int], placed[j - 1]);
                } else {
                    assert(!placed[j - 1].ranks_before(placed[i - 1]));
                }
            }
        }
    }
    proof {
        Seq::<T>::empty().to_multiset_ensures();
        assert(rest@ =~= Seq::<T>::empty());
        assert(sorted@.to_multiset() =~= original.to_multiset());
    }
    sorted
}

/// Where no two values rank the same, there is one arrangement: two strictly
/// arranged lists of the same values are equal.
pub proof fn law_arrangement_is_unique<T: Ranked>(left: Seq<T>, right: Seq<T>)
    requires
        strictly_arranged(left),
        strictly_arranged(right),
        left.to_multiset() == right.to_multiset(),
    ensures
        left == right,
    decreases left.len(),
{
    left.to_multiset_ensures();
    right.to_multiset_ensures();
    if left.len() == 0 {
        assert(left =~= right);
    } else {
        let item = left.last();
        let other = right.last();
        assert(left.contains(left[left.len() - 1]));
        assert(left.to_multiset().count(item) > 0);
        assert(right.contains(item));
        assert(right.contains(right[right.len() - 1]));
        assert(right.to_multiset().count(other) > 0);
        assert(left.contains(other));
        let i = choose|i: int| 0 <= i < right.len() && right[i] == item;
        let j = choose|j: int| 0 <= j < left.len() && left[j] == other;
        T::rank_laws(item, other, item);
        if i < right.len() - 1 {
            assert(right[i].ranks_before(right[right.len() - 1]));
            if j < left.len() - 1 {
                assert(left[j].ranks_before(left[left.len() - 1]));
            }
        }
        assert(item == other);
        let head = left.drop_last();
        let rest = right.drop_last();
        assert(left =~= head.push(item));
        assert(right =~= rest.push(item));
        to_multiset_build(head, item);
        to_multiset_build(rest, item);
        assert(head.to_multiset() =~= left.to_multiset().remove(item));
        assert(rest.to_multiset() =~= right.to_multiset().remove(item));
        law_arrangement_is_unique(head, rest);
    }
}

} // verus!
