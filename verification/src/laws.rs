//! What holds of every search: laws of the model, proved once for all
//! states, goals and operators.

use vstd::prelude::*;
use crate::fact::all_hold;
use crate::operator::{successor, OperatorModel};
use crate::search::{depth_limit, plan, reach, reach_all, reach_by, reach_via, Outcome};

verus! {

/// No operator of `ops` adds `fact`.
pub open spec fn never_added<F>(ops: Seq<OperatorModel<F>>, fact: F) -> bool {
    forall|i: int| 0 <= i < ops.len() ==> !(#[trigger] ops[i]).add.contains(fact)
}

/// `head` is how `whole` begins.
pub open spec fn begins_with<F>(whole: Seq<F>, head: Seq<F>) -> bool {
    head.len() <= whole.len() && whole.take(head.len() as int) == head
}

/// A goal that holds already costs nothing: the state comes back as it is
/// and the trace is left as it was.
pub proof fn lemma_goal_that_holds_is_kept<F>(
    ops: Seq<OperatorModel<F>>,
    state: Seq<F>,
    goal: F,
    stack: Seq<F>,
    trace: Seq<F>,
)
    requires
        state.contains(goal),
    ensures
        reach(ops, state, goal, stack, trace) == (Outcome { state: Some(state), trace }),
{
}

/// Goals that all hold already cost nothing either.
pub proof fn lemma_goals_that_hold_are_kept<F>(
    ops: Seq<OperatorModel<F>>,
    state: Seq<F>,
    goals: Seq<F>,
    done: nat,
    stack: Seq<F>,
    trace: Seq<F>,
)
    requires
        all_hold(state, goals),
    ensures
        reach_all(ops, state, goals, done, stack, trace) == (Outcome { state: Some(state), trace }),
    decreases goals.len() - done,
{
    if done < goals.len() {
        assert(state.contains(goals[done as int]));
        lemma_goal_that_holds_is_kept(ops, state, goals[done as int], stack, trace);
        lemma_goals_that_hold_are_kept(ops, state, goals, done + 1, stack, trace);
    }
}

/// Deletion comes before addition: whatever an operator adds holds in the
/// successor state, also where the operator deletes it.
pub proof fn lemma_added_fact_holds<F>(op: OperatorModel<F>, state: Seq<F>, fact: F)
    requires
        op.add.contains(fact),
    ensures
        successor(op, state).contains(fact),
{
    let kept = state.filter(|f: F| !op.delete.contains(f));
    let i = choose|i: int| 0 <= i < op.add.len() && op.add[i] == fact;
    assert(successor(op, state)[kept.len() + i] == fact);
}

/// What an operator deletes and does not add is gone from the successor
/// state.
pub proof fn lemma_deleted_fact_is_gone<F>(op: OperatorModel<F>, state: Seq<F>, fact: F)
    requires
        op.delete.contains(fact),
        !op.add.contains(fact),
    ensures
        !successor(op, state).contains(fact),
{
    let keep = |f: F| !op.delete.contains(f);
    let kept = state.filter(keep);
    if successor(op, state).contains(fact) {
        let i = choose|i: int| 0 <= i < successor(op, state).len() && successor(op, state)[i] == fact;
        if i < kept.len() {
            state.lemma_filter_pred(keep, i);
        } else {
            assert(op.add[i - kept.len()] == fact);
        }
    }
}

/// What holds in a state and is not deleted still holds in the successor
/// state.
pub proof fn lemma_untouched_fact_stays<F>(op: OperatorModel<F>, state: Seq<F>, fact: F)
    requires
        state.contains(fact),
        !op.delete.contains(fact),
    ensures
        successor(op, state).contains(fact),
{
    let keep = |f: F| !op.delete.contains(f);
    let kept = state.filter(keep);
    let i = choose|i: int| 0 <= i < state.len() && state[i] == fact;
    state.lemma_filter_contains(keep, i);
    let j = choose|j: int| 0 <= j < kept.len() && kept[j] == fact;
    assert(successor(op, state)[j] == fact);
}

/// The successor state holds nothing but what the state held or the
/// operator adds.
pub proof fn lemma_successor_holds_nothing_new<F>(op: OperatorModel<F>, state: Seq<F>, fact: F)
    requires
        successor(op, state).contains(fact),
    ensures
        state.contains(fact) || op.add.contains(fact),
{
    let keep = |f: F| !op.delete.contains(f);
    let kept = state.filter(keep);
    let i = choose|i: int| 0 <= i < successor(op, state).len() && successor(op, state)[i] == fact;
    if i < kept.len() {
        assert(kept.contains(fact));
        state.lemma_filter_contains_rev(keep, fact);
    } else {
        assert(op.add[i - kept.len()] == fact);
    }
}

/// A search for several goals that succeeds ends in a state in which every
/// one of them holds: a goal that a later step undid makes the search fail.
pub proof fn lemma_goals_hold_at_the_end<F>(
    ops: Seq<OperatorModel<F>>,
    state: Seq<F>,
    goals: Seq<F>,
    done: nat,
    stack: Seq<F>,
    trace: Seq<F>,
)
    ensures
        reach_all(ops, state, goals, done, stack, trace).state matches Some(s) ==> all_hold(
            s,
            goals,
        ),
    decreases goals.len() - done,
{
    if done < goals.len() {
        let step = reach(ops, state, goals[done as int], stack, trace);
        if let Some(s) = step.state {
            lemma_goals_hold_at_the_end(ops, s, goals, done + 1, stack, step.trace);
        }
    }
}

/// A fact that no operator adds cannot come to hold: where it is absent
/// from the state, it is absent from the state that taking `op` leads to.
pub proof fn lemma_reach_via_adds_nothing_else<F>(
    ops: Seq<OperatorModel<F>>,
    op: OperatorModel<F>,
    state: Seq<F>,
    goal: F,
    stack: Seq<F>,
    trace: Seq<F>,
    fact: F,
)
    requires
        never_added(ops, fact),
        !op.add.contains(fact),
        !state.contains(fact),
    ensures
        reach_via(ops, op, state, goal, stack, trace).state matches Some(s) ==> !s.contains(fact),
    decreases depth_limit() - stack.len(), 0nat, 0nat,
{
    if stack.len() < depth_limit() {
        let ready = reach_all(ops, state, op.preconds, 0, stack.push(goal), trace);
        lemma_reach_all_adds_nothing_else(ops, state, op.preconds, 0, stack.push(goal), trace, fact);
        if let Some(s) = ready.state {
            if successor(op, s).contains(fact) {
                lemma_successor_holds_nothing_new(op, s, fact);
            }
        }
    }
}

/// A fact that no operator adds and that is absent from the state is
/// absent from the state that trying the operators from `from` on leads to.
pub proof fn lemma_reach_by_adds_nothing_else<F>(
    ops: Seq<OperatorModel<F>>,
    from: nat,
    state: Seq<F>,
    goal: F,
    stack: Seq<F>,
    trace: Seq<F>,
    fact: F,
)
    requires
        never_added(ops, fact),
        !state.contains(fact),
    ensures
        reach_by(ops, from, state, goal, stack, trace).state matches Some(s) ==> !s.contains(fact),
    decreases depth_limit() - stack.len(), 1nat, ops.len() - from,
{
    if from < ops.len() {
        if !ops[from as int].add.contains(goal) {
            lemma_reach_by_adds_nothing_else(ops, from + 1, state, goal, stack, trace, fact);
        } else {
            let tried = reach_via(ops, ops[from as int], state, goal, stack, trace);
            lemma_reach_via_adds_nothing_else(ops, ops[from as int], state, goal, stack, trace, fact);
            if tried.state is None {
                lemma_reach_by_adds_nothing_else(
                    ops,
                    from + 1,
                    state,
                    goal,
                    stack,
                    tried.trace,
                    fact,
                );
            }
        }
    }
}

/// A fact that no operator adds and that is absent from the state is
/// absent from the state in which `goal` has been made to hold.
pub proof fn lemma_reach_adds_nothing_else<F>(
    ops: Seq<OperatorModel<F>>,
    state: Seq<F>,
    goal: F,
    stack: Seq<F>,
    trace: Seq<F>,
    fact: F,
)
    requires
        never_added(ops, fact),
        !state.contains(fact),
    ensures
        reach(ops, state, goal, stack, trace).state matches Some(s) ==> !s.contains(fact),
    decreases depth_limit() - stack.len(), 2nat, 0nat,
{
    if !state.contains(goal) {
        lemma_reach_by_adds_nothing_else(ops, 0, state, goal, stack, trace, fact);
    }
}

/// A fact that no operator adds and that is absent from the state is
/// absent from the state in which the goals have been made to hold.
pub proof fn lemma_reach_all_adds_nothing_else<F>(
    ops: Seq<OperatorModel<F>>,
    state: Seq<F>,
    goals: Seq<F>,
    done: nat,
    stack: Seq<F>,
    trace: Seq<F>,
    fact: F,
)
    requires
        never_added(ops, fact),
        !state.contains(fact),
    ensures
        reach_all(ops, state, goals, done, stack, trace).state matches Some(s) ==> !s.contains(
            fact,
        ),
    decreases depth_limit() - stack.len(), 3nat, goals.len() - done,
{
    if done < goals.len() {
        let step = reach(ops, state, goals[done as int], stack, trace);
        lemma_reach_adds_nothing_else(ops, state, goals[done as int], stack, trace, fact);
        if let Some(s) = step.state {
            lemma_reach_all_adds_nothing_else(ops, s, goals, done + 1, stack, step.trace, fact);
        }
    }
}

/// A goal that does not hold at the start and that no operator adds cannot
/// be achieved: there is no plan.
pub proof fn lemma_goal_out_of_reach<F>(
    start: Seq<F>,
    goals: Seq<F>,
    ops: Seq<OperatorModel<F>>,
    goal: F,
)
    requires
        goals.contains(goal),
        !start.contains(goal),
        never_added(ops, goal),
    ensures
        plan(start, goals, ops) is None,
{
    let nothing = Seq::<F>::empty();
    lemma_reach_all_adds_nothing_else(ops, start, goals, 0, nothing, nothing, goal);
    lemma_goals_hold_at_the_end(ops, start, goals, 0, nothing, nothing);
    if let Some(s) = reach_all(ops, start, goals, 0, nothing, nothing).state {
        let i = choose|i: int| 0 <= i < goals.len() && goals[i] == goal;
        assert(s.contains(goals[i]));
    }
}

/// The first operator in the list that adds the goal is the one taken,
/// where its preconditions hold already: its action is recorded and the
/// state moves to its successor, whatever operators follow it in the list.
pub proof fn lemma_first_ready_operator_is_taken<F>(
    ops: Seq<OperatorModel<F>>,
    first: nat,
    state: Seq<F>,
    goal: F,
    stack: Seq<F>,
    trace: Seq<F>,
)
    requires
        first < ops.len(),
        ops[first as int].add.contains(goal),
        forall|j: int| 0 <= j < first ==> !(#[trigger] ops[j]).add.contains(goal),
        all_hold(state, ops[first as int].preconds),
        !state.contains(goal),
        stack.len() < depth_limit(),
    ensures
        reach(ops, state, goal, stack, trace) == (Outcome {
            state: Some(successor(ops[first as int], state)),
            trace: trace.push(ops[first as int].action),
        }),
{
    let op = ops[first as int];
    lemma_goals_that_hold_are_kept(ops, state, op.preconds, 0, stack.push(goal), trace);
    let taken = reach_via(ops, op, state, goal, stack, trace);
    assert(taken == (Outcome { state: Some(successor(op, state)), trace: trace.push(op.action) }));
    lemma_skips_to_first(ops, 0, first, state, goal, stack, trace);
}

/// Operators that do not add the goal are passed over.
proof fn lemma_skips_to_first<F>(
    ops: Seq<OperatorModel<F>>,
    from: nat,
    first: nat,
    state: Seq<F>,
    goal: F,
    stack: Seq<F>,
    trace: Seq<F>,
)
    requires
        from <= first < ops.len(),
        forall|j: int| from <= j < first ==> !(#[trigger] ops[j]).add.contains(goal),
    ensures
        reach_by(ops, from, state, goal, stack, trace) == reach_by(
            ops,
            first,
            state,
            goal,
            stack,
            trace,
        ),
    decreases first - from,
{
    if from < first {
        assert(!ops[from as int].add.contains(goal));
        lemma_skips_to_first(ops, from + 1, first, state, goal, stack, trace);
    }
}

/// The order of the operators decides which plan is found, and not whether
/// one is found: of two operators that both add the goal and can both be
/// taken at once, the one listed first makes the plan.
pub proof fn lemma_order_decides_plan<F>(
    a: OperatorModel<F>,
    b: OperatorModel<F>,
    start: Seq<F>,
    goal: F,
)
    requires
        !start.contains(goal),
        a.add.contains(goal),
        b.add.contains(goal),
        all_hold(start, a.preconds),
        all_hold(start, b.preconds),
    ensures
        plan(start, seq![goal], seq![a, b]) == Some(seq![a.action]),
        plan(start, seq![goal], seq![b, a]) == Some(seq![b.action]),
{
    lemma_single_goal_plan(seq![a, b], start, goal);
    lemma_single_goal_plan(seq![b, a], start, goal);
}

/// The plan for one goal that the first operator adds and can be taken for
/// at once is that operator's action.
proof fn lemma_single_goal_plan<F>(ops: Seq<OperatorModel<F>>, start: Seq<F>, goal: F)
    requires
        ops.len() > 0,
        !start.contains(goal),
        ops[0].add.contains(goal),
        all_hold(start, ops[0].preconds),
    ensures
        plan(start, seq![goal], ops) == Some(seq![ops[0].action]),
{
    let nothing = Seq::<F>::empty();
    let goals = seq![goal];
    lemma_first_ready_operator_is_taken(ops, 0, start, goal, nothing, nothing);
    let next = successor(ops[0], start);
    let trace = nothing.push(ops[0].action);
    lemma_added_fact_holds(ops[0], start, goal);
    assert(all_hold(next, goals));
    assert(reach(ops, start, goals[0], nothing, nothing) == (Outcome {
        state: Some(next),
        trace,
    }));
    assert(reach_all(ops, next, goals, 1, nothing, trace) == (Outcome {
        state: Some(next),
        trace,
    }));
    assert(trace =~= seq![ops[0].action]);
}

/// Taking an operator only appends to the trace: what was recorded before
/// is still how the trace begins.
pub proof fn lemma_reach_via_extends_trace<F>(
    ops: Seq<OperatorModel<F>>,
    op: OperatorModel<F>,
    state: Seq<F>,
    goal: F,
    stack: Seq<F>,
    trace: Seq<F>,
)
    ensures
        begins_with(reach_via(ops, op, state, goal, stack, trace).trace, trace),
    decreases depth_limit() - stack.len(), 0nat, 0nat,
{
    if stack.len() < depth_limit() {
        let ready = reach_all(ops, state, op.preconds, 0, stack.push(goal), trace);
        lemma_reach_all_extends_trace(ops, state, op.preconds, 0, stack.push(goal), trace);
        assert(ready.trace.push(op.action).take(trace.len() as int) =~= ready.trace.take(
            trace.len() as int,
        ));
    } else {
        assert(trace.take(trace.len() as int) =~= trace);
    }
}

/// Trying operators only appends to the trace, also where an operator
/// tried first was given up.
pub proof fn lemma_reach_by_extends_trace<F>(
    ops: Seq<OperatorModel<F>>,
    from: nat,
    state: Seq<F>,
    goal: F,
    stack: Seq<F>,
    trace: Seq<F>,
)
    ensures
        begins_with(reach_by(ops, from, state, goal, stack, trace).trace, trace),
    decreases depth_limit() - stack.len(), 1nat, ops.len() - from,
{
    if from >= ops.len() {
        assert(trace.take(trace.len() as int) =~= trace);
    } else if !ops[from as int].add.contains(goal) {
        lemma_reach_by_extends_trace(ops, from + 1, state, goal, stack, trace);
    } else {
        let tried = reach_via(ops, ops[from as int], state, goal, stack, trace);
        lemma_reach_via_extends_trace(ops, ops[from as int], state, goal, stack, trace);
        if tried.state is None {
            let rest = reach_by(ops, from + 1, state, goal, stack, tried.trace);
            lemma_reach_by_extends_trace(ops, from + 1, state, goal, stack, tried.trace);
            lemma_begins_with_chains(rest.trace, tried.trace, trace);
        }
    }
}

/// Making a goal hold only appends to the trace.
pub proof fn lemma_reach_extends_trace<F>(
    ops: Seq<OperatorModel<F>>,
    state: Seq<F>,
    goal: F,
    stack: Seq<F>,
    trace: Seq<F>,
)
    ensures
        begins_with(reach(ops, state, goal, stack, trace).trace, trace),
    decreases depth_limit() - stack.len(), 2nat, 0nat,
{
    if state.contains(goal) {
        assert(trace.take(trace.len() as int) =~= trace);
    } else {
        lemma_reach_by_extends_trace(ops, 0, state, goal, stack, trace);
    }
}

/// Making several goals hold only appends to the trace.
pub proof fn lemma_reach_all_extends_trace<F>(
    ops: Seq<OperatorModel<F>>,
    state: Seq<F>,
    goals: Seq<F>,
    done: nat,
    stack: Seq<F>,
    trace: Seq<F>,
)
    ensures
        begins_with(reach_all(ops, state, goals, done, stack, trace).trace, trace),
    decreases depth_limit() - stack.len(), 3nat, goals.len() - done,
{
    if done >= goals.len() {
        assert(trace.take(trace.len() as int) =~= trace);
    } else {
        let step = reach(ops, state, goals[done as int], stack, trace);
        lemma_reach_extends_trace(ops, state, goals[done as int], stack, trace);
        if let Some(s) = step.state {
            let rest = reach_all(ops, s, goals, done + 1, stack, step.trace);
            lemma_reach_all_extends_trace(ops, s, goals, done + 1, stack, step.trace);
            lemma_begins_with_chains(rest.trace, step.trace, trace);
        }
    }
}

/// What begins a beginning begins the whole.
proof fn lemma_begins_with_chains<F>(whole: Seq<F>, middle: Seq<F>, head: Seq<F>)
    requires
        begins_with(whole, middle),
        begins_with(middle, head),
    ensures
        begins_with(whole, head),
{
    assert(whole.take(head.len() as int) =~= whole.take(middle.len() as int).take(
        head.len() as int,
    ));
}

/// Every entry of `trace` is the action of an operator of `ops`.
pub open spec fn names_operators<F>(ops: Seq<OperatorModel<F>>, trace: Seq<F>) -> bool {
    forall|i: int|
        0 <= i < trace.len() ==> exists|k: int|
            0 <= k < ops.len() && (#[trigger] ops[k]).action == #[trigger] trace[i]
}

/// Recording the action of an operator of the list keeps a trace made of
/// such actions one.
proof fn lemma_names_operators_push<F>(ops: Seq<OperatorModel<F>>, trace: Seq<F>, k: int)
    requires
        names_operators(ops, trace),
        0 <= k < ops.len(),
    ensures
        names_operators(ops, trace.push(ops[k].action)),
{
    let longer = trace.push(ops[k].action);
    assert forall|i: int| 0 <= i < longer.len() implies exists|j: int|
        0 <= j < ops.len() && (#[trigger] ops[j]).action == #[trigger] longer[i] by {
        if i < trace.len() {
            assert(longer[i] == trace[i]);
            let j = choose|j: int| 0 <= j < ops.len() && (#[trigger] ops[j]).action == trace[i];
            assert(ops[j].action == longer[i]);
        } else {
            assert(ops[k].action == longer[i]);
        }
    }
}

/// Taking an operator of the list records nothing but actions of operators
/// of the list.
pub proof fn lemma_reach_via_names_operators<F>(
    ops: Seq<OperatorModel<F>>,
    index: int,
    state: Seq<F>,
    goal: F,
    stack: Seq<F>,
    trace: Seq<F>,
)
    requires
        0 <= index < ops.len(),
        names_operators(ops, trace),
    ensures
        names_operators(ops, reach_via(ops, ops[index], state, goal, stack, trace).trace),
    decreases depth_limit() - stack.len(), 0nat, 0nat,
{
    if stack.len() < depth_limit() {
        let op = ops[index];
        let ready = reach_all(ops, state, op.preconds, 0, stack.push(goal), trace);
        lemma_reach_all_names_operators(ops, state, op.preconds, 0, stack.push(goal), trace);
        if ready.state is Some {
            lemma_names_operators_push(ops, ready.trace, index);
        }
    }
}

/// Trying the operators of the list records nothing but their actions.
pub proof fn lemma_reach_by_names_operators<F>(
    ops: Seq<OperatorModel<F>>,
    from: nat,
    state: Seq<F>,
    goal: F,
    stack: Seq<F>,
    trace: Seq<F>,
)
    requires
        names_operators(ops, trace),
    ensures
        names_operators(ops, reach_by(ops, from, state, goal, stack, trace).trace),
    decreases depth_limit() - stack.len(), 1nat, ops.len() - from,
{
    if from < ops.len() {
        if !ops[from as int].add.contains(goal) {
            lemma_reach_by_names_operators(ops, from + 1, state, goal, stack, trace);
        } else {
            let tried = reach_via(ops, ops[from as int], state, goal, stack, trace);
            lemma_reach_via_names_operators(ops, from as int, state, goal, stack, trace);
            if tried.state is None {
                lemma_reach_by_names_operators(ops, from + 1, state, goal, stack, tried.trace);
            }
        }
    }
}

/// Making a goal hold records nothing but actions of operators of the
/// list.
pub proof fn lemma_reach_names_operators<F>(
    ops: Seq<OperatorModel<F>>,
    state: Seq<F>,
    goal: F,
    stack: Seq<F>,
    trace: Seq<F>,
)
    requires
        names_operators(ops, trace),
    ensures
        names_operators(ops, reach(ops, state, goal, stack, trace).trace),
    decreases depth_limit() - stack.len(), 2nat, 0nat,
{
    if !state.contains(goal) {
        lemma_reach_by_names_operators(ops, 0, state, goal, stack, trace);
    }
}

/// Making several goals hold records nothing but actions of operators of
/// the list.
pub proof fn lemma_reach_all_names_operators<F>(
    ops: Seq<OperatorModel<F>>,
    state: Seq<F>,
    goals: Seq<F>,
    done: nat,
    stack: Seq<F>,
    trace: Seq<F>,
)
    requires
        names_operators(ops, trace),
    ensures
        names_operators(ops, reach_all(ops, state, goals, done, stack, trace).trace),
    decreases depth_limit() - stack.len(), 3nat, goals.len() - done,
{
    if done < goals.len() {
        let step = reach(ops, state, goals[done as int], stack, trace);
        lemma_reach_names_operators(ops, state, goals[done as int], stack, trace);
        if let Some(s) = step.state {
            lemma_reach_all_names_operators(ops, s, goals, done + 1, stack, step.trace);
        }
    }
}

/// A plan is made of actions of the operators given.
pub proof fn lemma_plan_names_operators<F>(
    start: Seq<F>,
    goals: Seq<F>,
    ops: Seq<OperatorModel<F>>,
)
    ensures
        plan(start, goals, ops) matches Some(p) ==> names_operators(ops, p),
{
    let nothing = Seq::<F>::empty();
    lemma_reach_all_names_operators(ops, start, goals, 0, nothing, nothing);
}

} // verus!
