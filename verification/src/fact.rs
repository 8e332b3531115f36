//! Facts: the atomic propositions a state is made of.

use vstd::prelude::*;

verus! {

/// An atomic proposition. Two facts are the same proposition exactly when
/// their views are equal; a fact is never negated, and a state that lacks it
/// is a state in which it does not hold.
pub trait Fact: View + Sized {
    /// Decides whether `self` and `other` are the same proposition.
    fn same(&self, other: &Self) -> (r: bool)
        ensures
            r == (self@ == other@),
    ;

    /// A copy of the fact that stands for the same proposition.
    fn duplicate(&self) -> (r: Self)
        ensures
            r@ == self@,
    ;
}

impl Fact for String {
    fn same(&self, other: &Self) -> (r: bool) {
        *self == *other
    }

    fn duplicate(&self) -> (r: Self) {
        self.clone()
    }
}

/// The propositions that a list of facts stands for, in order.
pub open spec fn facts_of<T: Fact>(list: Seq<T>) -> Seq<T::V> {
    Seq::new(list.len(), |i: int| list[i]@)
}

/// Every proposition of `wanted` occurs in `state`.
pub open spec fn all_hold<F>(state: Seq<F>, wanted: Seq<F>) -> bool {
    forall|i: int| 0 <= i < wanted.len() ==> state.contains(#[trigger] wanted[i])
}

/// Appending a fact appends its proposition.
pub proof fn lemma_facts_of_push<T: Fact>(list: Seq<T>, fact: T)
    ensures
        facts_of(list.push(fact)) == facts_of(list).push(fact@),
{
    assert(facts_of(list.push(fact)) =~= facts_of(list).push(fact@));
}

/// Whether `fact` holds in `list`: membership by proposition.
pub fn holds<T: Fact>(list: &[T], fact: &T) -> (r: bool)
    ensures
        r == facts_of(list@).contains(fact@),
{
    let mut i: usize = 0;
    while i < list.len()
        invariant
            i <= list@.len(),
            forall|j: int| 0 <= j < i ==> list@[j]@ != fact@,
        decreases list@.len() - i,
    {
        if list[i].same(fact) {
            assert(facts_of(list@)[i as int] == fact@);
            return true;
        }
        i += 1;
    }
    false
}

/// Whether every fact of `wanted` holds in `state`.
pub fn holds_all<T: Fact>(state: &[T], wanted: &[T]) -> (r: bool)
    ensures
        r == all_hold(facts_of(state@), facts_of(wanted@)),
{
    let mut i: usize = 0;
    while i < wanted.len()
        invariant
            i <= wanted@.len(),
            forall|j: int| 0 <= j < i ==> facts_of(state@).contains(#[trigger] facts_of(wanted@)[j]),
        decreases wanted@.len() - i,
    {
        if !holds(state, &wanted[i]) {
            assert(!facts_of(state@).contains(facts_of(wanted@)[i as int]));
            return false;
        }
        i += 1;
    }
    true
}

/// A fresh list holding a copy of each fact of `list`, in order.
pub fn duplicate_all<T: Fact>(list: &[T]) -> (r: Vec<T>)
    ensures
        facts_of(r@) == facts_of(list@),
{
    let mut copy: Vec<T> = Vec::new();
    let mut i: usize = 0;
    while i < list.len()
        invariant
            i <= list@.len(),
            copy@.len() == i,
            forall|j: int| 0 <= j < i ==> copy@[j]@ == list@[j]@,
        decreases list@.len() - i,
    {
        copy.push(list[i].duplicate());
        i += 1;
    }
    assert(facts_of(copy@) =~= facts_of(list@));
    copy
}

} // verus!
