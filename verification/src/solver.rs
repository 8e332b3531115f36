//! The planner: a depth-first search for a sequence of operators that
//! leads from the start state to one in which every goal holds.

use vstd::prelude::*;
use crate::fact::{all_hold, duplicate_all, facts_of, holds, holds_all, lemma_facts_of_push, Fact};
use crate::laws::{
    begins_with, lemma_goal_out_of_reach, lemma_plan_names_operators,
    lemma_reach_all_extends_trace, lemma_reach_extends_trace, lemma_reach_via_extends_trace,
    names_operators, never_added,
};
use crate::operator::{apply_effects, operators_of, Operator};
use crate::search::{depth_limit, plan, reach, reach_all, reach_by, reach_via, Outcome};

verus! {

/// What a search returned and left in the trace, over propositions.
pub open spec fn outcome_of<T: Fact>(found: Option<Vec<T>>, trace: Seq<T>) -> Outcome<T::V> {
    Outcome {
        state: match found {
            Some(s) => Some(facts_of(s@)),
            None => None,
        },
        trace: facts_of(trace),
    }
}

/// The propositions of a returned plan.
pub open spec fn plan_of<T: Fact>(found: Option<Vec<T>>) -> Option<Seq<T::V>> {
    match found {
        Some(p) => Some(facts_of(p@)),
        None => None,
    }
}

/// Finds a plan: the actions to take, in order, to get from
/// `initial_states` to a state in which all of `goal_states` hold, or
/// `None` where the search finds no way. A goal that holds nowhere at the
/// start and that no operator adds is never achieved.
///
/// The search keeps the first operator that works and looks for no shorter
/// plan. It does not notice a goal that depends on itself: every nesting
/// puts one more goal on the stack of goals pursued, and the search nests
/// for as long as that stack can grow.
pub fn problem_solver<T: Fact>(
    initial_states: &[T],
    goal_states: &[T],
    operators: &[Operator<T>],
) -> (r: Option<Vec<T>>)
    ensures
        plan_of(r) == plan(
            facts_of(initial_states@),
            facts_of(goal_states@),
            operators_of(operators@),
        ),
        forall|g: T::V|
            facts_of(goal_states@).contains(g) && !facts_of(initial_states@).contains(g)
                && never_added(operators_of(operators@), g) ==> r is None,
        r matches Some(p) ==> names_operators(operators_of(operators@), facts_of(p@)),
{
    proof {
        lemma_plan_names_operators(
            facts_of(initial_states@),
            facts_of(goal_states@),
            operators_of(operators@),
        );
    }
    let goal_stack: Vec<T> = Vec::new();
    let mut result_actions: Vec<T> = Vec::new();
    assert(facts_of(goal_stack@) =~= Seq::<T::V>::empty());
    assert(facts_of(result_actions@) =~= Seq::<T::V>::empty());
    proof {
        assert forall|g: T::V|
            facts_of(goal_states@).contains(g) && !facts_of(initial_states@).contains(g)
                && never_added(operators_of(operators@), g) implies plan(
            facts_of(initial_states@),
            facts_of(goal_states@),
            operators_of(operators@),
        ) is None by {
            lemma_goal_out_of_reach(
                facts_of(initial_states@),
                facts_of(goal_states@),
                operators_of(operators@),
                g,
            );
        }
    }
    let final_states = achieve_all(
        initial_states,
        operators,
        goal_states,
        goal_stack.as_slice(),
        &mut result_actions,
    );
    match final_states {
        None => None,
        Some(_) => Some(result_actions),
    }
}

/// Makes every fact of `goals` hold, in the order given, each from the
/// state that the one before it left, and returns the state reached. Fails
/// where a goal cannot be achieved, and where achieving one goal undid
/// another: the state returned holds all of `goals`. Actions recorded on
/// the way stay in `result_actions` also where the search fails, so the
/// trace is a plan only where the outermost search succeeds.
pub fn achieve_all<T: Fact>(
    states: &[T],
    ops: &[Operator<T>],
    goals: &[T],
    goal_stack: &[T],
    result_actions: &mut Vec<T>,
) -> (r: Option<Vec<T>>)
    ensures
        outcome_of(r, final(result_actions)@) == reach_all(
            operators_of(ops@),
            facts_of(states@),
            facts_of(goals@),
            0,
            facts_of(goal_stack@),
            facts_of(old(result_actions)@),
        ),
        r matches Some(s) ==> all_hold(facts_of(s@), facts_of(goals@)),
        begins_with(facts_of(final(result_actions)@), facts_of(old(result_actions)@)),
    decreases depth_limit() - goal_stack@.len(), 3nat, 0nat,
{
    proof {
        lemma_reach_all_extends_trace(
            operators_of(ops@),
            facts_of(states@),
            facts_of(goals@),
            0,
            facts_of(goal_stack@),
            facts_of(result_actions@),
        );
    }
    let ghost rules = operators_of(ops@);
    let ghost wanted = facts_of(goals@);
    let ghost stack = facts_of(goal_stack@);
    let ghost whole = reach_all(
        rules,
        facts_of(states@),
        wanted,
        0,
        stack,
        facts_of(result_actions@),
    );
    let mut st = duplicate_all(states);
    let mut i: usize = 0;
    while i < goals.len()
        invariant
            i <= goals@.len(),
            rules == operators_of(ops@),
            wanted == facts_of(goals@),
            stack == facts_of(goal_stack@),
            whole == reach_all(
                rules,
                facts_of(states@),
                wanted,
                0,
                stack,
                facts_of(old(result_actions)@),
            ),
            reach_all(rules, facts_of(st@), wanted, i as nat, stack, facts_of(result_actions@))
                == whole,
            begins_with(whole.trace, facts_of(old(result_actions)@)),
        decreases goals@.len() - i,
    {
        let step = achieve(st, ops, &goals[i], goal_stack, result_actions);
        match step {
            None => {
                return None;
            },
            Some(v) => {
                st = v;
            },
        }
        i += 1;
    }
    if !holds_all(st.as_slice(), goals) {
        return None;
    }
    Some(st)
}

/// Makes `goal` hold. Where it holds in `states` already, `states` comes
/// back as it is and nothing is recorded. Else the operators that add
/// `goal` are tried in the order given, and the first that can be taken
/// decides the result.
pub fn achieve<T: Fact>(
    states: Vec<T>,
    operators: &[Operator<T>],
    goal: &T,
    goal_stack: &[T],
    result_actions: &mut Vec<T>,
) -> (r: Option<Vec<T>>)
    ensures
        outcome_of(r, final(result_actions)@) == reach(
            operators_of(operators@),
            facts_of(states@),
            goal@,
            facts_of(goal_stack@),
            facts_of(old(result_actions)@),
        ),
        facts_of(states@).contains(goal@) ==> r == Some(states) && final(result_actions)@ == old(
            result_actions,
        )@,
        begins_with(facts_of(final(result_actions)@), facts_of(old(result_actions)@)),
    decreases depth_limit() - goal_stack@.len(), 2nat, 0nat,
{
    proof {
        lemma_reach_extends_trace(
            operators_of(operators@),
            facts_of(states@),
            goal@,
            facts_of(goal_stack@),
            facts_of(result_actions@),
        );
    }
    if holds(states.as_slice(), goal) {
        return Some(states);
    }
    let ghost rules = operators_of(operators@);
    let ghost state = facts_of(states@);
    let ghost stack = facts_of(goal_stack@);
    let ghost whole = reach_by(rules, 0, state, goal@, stack, facts_of(result_actions@));
    let mut k: usize = 0;
    while k < operators.len()
        invariant
            k <= operators@.len(),
            rules == operators_of(operators@),
            state == facts_of(states@),
            stack == facts_of(goal_stack@),
            !state.contains(goal@),
            whole == reach_by(rules, 0, state, goal@, stack, facts_of(old(result_actions)@)),
            reach_by(rules, k as nat, state, goal@, stack, facts_of(result_actions@)) == whole,
            begins_with(whole.trace, facts_of(old(result_actions)@)),
        decreases operators@.len() - k,
    {
        let op = &operators[k];
        if holds(op.add.as_slice(), goal) {
            let res = apply_operator(
                op,
                states.as_slice(),
                operators,
                goal,
                goal_stack,
                result_actions,
            );
            if res.is_some() {
                return res;
            }
        }
        k += 1;
    }
    None
}

/// Takes `op` for the sake of `goal`: achieves its preconditions with
/// `goal` put on a copy of the goal stack, then records its action and
/// returns the state that its effects lead to. Fails, with its own action
/// unrecorded, where the preconditions cannot all be achieved.
pub fn apply_operator<T: Fact>(
    op: &Operator<T>,
    states: &[T],
    operators: &[Operator<T>],
    goal: &T,
    goal_stack: &[T],
    result_actions: &mut Vec<T>,
) -> (r: Option<Vec<T>>)
    ensures
        outcome_of(r, final(result_actions)@) == reach_via(
            operators_of(operators@),
            op@,
            facts_of(states@),
            goal@,
            facts_of(goal_stack@),
            facts_of(old(result_actions)@),
        ),
        begins_with(facts_of(final(result_actions)@), facts_of(old(result_actions)@)),
    decreases depth_limit() - goal_stack@.len(), 0nat, 0nat,
{
    proof {
        lemma_reach_via_extends_trace(
            operators_of(operators@),
            op@,
            facts_of(states@),
            goal@,
            facts_of(goal_stack@),
            facts_of(result_actions@),
        );
    }
    let mut pursued = duplicate_all(goal_stack);
    let ghost below = pursued@;
    let top = goal.duplicate();
    pursued.push(top);
    proof {
        lemma_facts_of_push(below, top);
        assert(pursued.len() == pursued@.len());
    }
    let result = achieve_all(
        states,
        operators,
        op.preconds.as_slice(),
        pursued.as_slice(),
        result_actions,
    );
    match result {
        None => None,
        Some(res) => {
            let ghost taken = result_actions@;
            let label = op.action.duplicate();
            result_actions.push(label);
            proof {
                lemma_facts_of_push(taken, label);
            }
            Some(apply_effects(op, res.as_slice()))
        },
    }
}

} // verus!
