//! Operators: actions with preconditions and add/delete effects.

use vstd::prelude::*;
use crate::fact::{facts_of, holds, lemma_facts_of_push, Fact};
use crate::laws::lemma_added_fact_holds;

verus! {

/// An action that may be taken once all of `preconds` hold. Taking it
/// removes the facts of `delete` from the state and then appends those of
/// `add`; `action` names it in the plan.
#[derive(Clone, Debug)]
pub struct Operator<T> {
    pub action: T,
    pub preconds: Vec<T>,
    pub add: Vec<T>,
    pub delete: Vec<T>,
}

/// A planning problem: the facts that hold at the start, the facts wanted
/// at the end, and the operators that may be used to get there.
#[derive(Clone, Debug)]
pub struct Problem<T> {
    pub start: Vec<T>,
    pub finish: Vec<T>,
    pub ops: Vec<Operator<T>>,
}

/// What an operator says, over propositions.
pub struct OperatorModel<F> {
    pub action: F,
    pub preconds: Seq<F>,
    pub add: Seq<F>,
    pub delete: Seq<F>,
}

impl<T: Fact> View for Operator<T> {
    type V = OperatorModel<T::V>;

    open spec fn view(&self) -> OperatorModel<T::V> {
        OperatorModel {
            action: self.action@,
            preconds: facts_of(self.preconds@),
            add: facts_of(self.add@),
            delete: facts_of(self.delete@),
        }
    }
}

/// What a list of operators says, in order.
pub open spec fn operators_of<T: Fact>(list: Seq<Operator<T>>) -> Seq<OperatorModel<T::V>> {
    Seq::new(list.len(), |i: int| list[i]@)
}

/// The state that taking `op` in `state` leads to: what `state` holds and
/// `op` does not delete, in order, followed by everything `op` adds.
pub open spec fn successor<F>(op: OperatorModel<F>, state: Seq<F>) -> Seq<F> {
    state.filter(|f: F| !op.delete.contains(f)) + op.add
}

/// Takes `op` in `state`: drops what it deletes, then appends what it adds.
pub fn apply_effects<T: Fact>(op: &Operator<T>, state: &[T]) -> (r: Vec<T>)
    ensures
        facts_of(r@) == successor(op@, facts_of(state@)),
        forall|f: T::V| op@.add.contains(f) ==> facts_of(r@).contains(f),
{
    proof {
        assert forall|f: T::V| op@.add.contains(f) implies successor(
            op@,
            facts_of(state@),
        ).contains(f) by {
            lemma_added_fact_holds(op@, facts_of(state@), f);
        }
    }
    let ghost before = facts_of(state@);
    let ghost kept = |f: T::V| !op@.delete.contains(f);
    let mut next: Vec<T> = Vec::new();
    let mut i: usize = 0;
    assert(before.take(0) =~= Seq::<T::V>::empty());
    assert(facts_of(next@) =~= before.take(0).filter(kept)) by {
        reveal(Seq::filter);
    }
    while i < state.len()
        invariant
            i <= state@.len(),
            before == facts_of(state@),
            kept == |f: T::V| !op@.delete.contains(f),
            facts_of(next@) == before.take(i as int).filter(kept),
        decreases state@.len() - i,
    {
        let ghost so_far = next@;
        let deleted = holds(op.delete.as_slice(), &state[i]);
        proof {
            reveal(Seq::filter);
            assert(before.take(i + 1).drop_last() =~= before.take(i as int));
            assert(before.take(i + 1).last() == state@[i as int]@);
            assert(kept(state@[i as int]@) == !deleted);
        }
        if !deleted {
            let fact = state[i].duplicate();
            next.push(fact);
            proof {
                lemma_facts_of_push(so_far, fact);
            }
        }
        i += 1;
    }
    assert(before.take(i as int) =~= before);
    let mut j: usize = 0;
    let ghost filtered = facts_of(next@);
    while j < op.add.len()
        invariant
            j <= op.add@.len(),
            facts_of(next@) == filtered + facts_of(op.add@).take(j as int),
        decreases op.add@.len() - j,
    {
        let ghost so_far = next@;
        let fact = op.add[j].duplicate();
        next.push(fact);
        proof {
            lemma_facts_of_push(so_far, fact);
            assert(facts_of(op.add@).take(j + 1) =~= facts_of(op.add@).take(j as int).push(
                fact@,
            ));
            assert((filtered + facts_of(op.add@).take(j as int)).push(fact@) =~= filtered
                + facts_of(op.add@).take(j + 1));
        }
        j += 1;
    }
    assert(facts_of(op.add@).take(j as int) =~= facts_of(op.add@));
    next
}

} // verus!
