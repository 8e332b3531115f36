//! The search, as mathematics: what the planner finds, over propositions.
//!
//! The search is depth first and keeps the first success. Every operator
//! taken is appended to one shared trace, and what a branch appended stays
//! there when the branch is given up later.

use vstd::prelude::*;
use crate::fact::all_hold;
use crate::operator::{successor, OperatorModel};

verus! {

/// How a search ended: the state reached, if it succeeded, and the trace of
/// the operators taken on the way, whether it succeeded or not.
pub struct Outcome<F> {
    pub state: Option<Seq<F>>,
    pub trace: Seq<F>,
}

/// The deepest that goals may nest: a goal stack holds no more entries.
pub open spec fn depth_limit() -> nat {
    usize::MAX as nat
}

/// Takes `op` for the sake of `goal`: pursues its preconditions with `goal`
/// on the stack, and on success records its action and moves to the
/// successor state. A full stack ends the pursuit.
pub open spec fn reach_via<F>(
    ops: Seq<OperatorModel<F>>,
    op: OperatorModel<F>,
    state: Seq<F>,
    goal: F,
    stack: Seq<F>,
    trace: Seq<F>,
) -> Outcome<F>
    decreases depth_limit() - stack.len(), 0nat, 0nat,
{
    if stack.len() >= depth_limit() {
        Outcome { state: None, trace }
    } else {
        let ready = reach_all(ops, state, op.preconds, 0, stack.push(goal), trace);
        match ready.state {
            None => ready,
            Some(s) => Outcome {
                state: Some(successor(op, s)),
                trace: ready.trace.push(op.action),
            },
        }
    }
}

/// Tries the operators from index `from` on, in order, and keeps the first
/// that adds `goal` and can be taken.
pub open spec fn reach_by<F>(
    ops: Seq<OperatorModel<F>>,
    from: nat,
    state: Seq<F>,
    goal: F,
    stack: Seq<F>,
    trace: Seq<F>,
) -> Outcome<F>
    decreases depth_limit() - stack.len(), 1nat, ops.len() - from,
{
    if from >= ops.len() {
        Outcome { state: None, trace }
    } else if !ops[from as int].add.contains(goal) {
        reach_by(ops, from + 1, state, goal, stack, trace)
    } else {
        let tried = reach_via(ops, ops[from as int], state, goal, stack, trace);
        if tried.state is Some {
            tried
        } else {
            reach_by(ops, from + 1, state, goal, stack, tried.trace)
        }
    }
}

/// Makes `goal` hold: at once where it holds already, else by the first
/// operator that works.
pub open spec fn reach<F>(
    ops: Seq<OperatorModel<F>>,
    state: Seq<F>,
    goal: F,
    stack: Seq<F>,
    trace: Seq<F>,
) -> Outcome<F>
    decreases depth_limit() - stack.len(), 2nat, 0nat,
{
    if state.contains(goal) {
        Outcome { state: Some(state), trace }
    } else {
        reach_by(ops, 0, state, goal, stack, trace)
    }
}

/// Makes the goals from index `done` on hold, one after the other, each
/// from the state that the one before it left, and succeeds only if all of
/// `goals` hold in the state reached at the end.
pub open spec fn reach_all<F>(
    ops: Seq<OperatorModel<F>>,
    state: Seq<F>,
    goals: Seq<F>,
    done: nat,
    stack: Seq<F>,
    trace: Seq<F>,
) -> Outcome<F>
    decreases depth_limit() - stack.len(), 3nat, goals.len() - done,
{
    if done >= goals.len() {
        Outcome { state: if all_hold(state, goals) { Some(state) } else { None }, trace }
    } else {
        let step = reach(ops, state, goals[done as int], stack, trace);
        match step.state {
            None => step,
            Some(s) => reach_all(ops, s, goals, done + 1, stack, step.trace),
        }
    }
}

/// The plan: the trace of a search for all of `goals` from `start`, with
/// nothing on the stack and nothing recorded yet, where that search
/// succeeds.
pub open spec fn plan<F>(start: Seq<F>, goals: Seq<F>, ops: Seq<OperatorModel<F>>) -> Option<
    Seq<F>,
> {
    let found = reach_all(ops, start, goals, 0, Seq::empty(), Seq::empty());
    match found.state {
        None => None,
        Some(_) => Some(found.trace),
    }
}

} // verus!
