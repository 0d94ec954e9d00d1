//! Why recording a future in a search tree changes the counts as it should
//! and keeps the tree well-formed.

use crate::environment::EnvironmentInfo;
use crate::explorer::monte_carlo_explorer::{
    passes, passes_by, recorded, return_bound, return_of, reward_gained, visits_gained,
    ActionNode, ChanceNode, Step, MAX_HORIZON,
};
use crate::types::{Action, Percept};
use vstd::prelude::*;

verus! {

/// The rewards of a future sum to no more than its length allows.
pub proof fn lemma_return_bounded(steps: Seq<Step>)
    ensures
        -32768 * steps.len() <= return_of(steps) <= 32768 * steps.len(),
    decreases steps.len(),
{
    if steps.len() > 0 {
        lemma_return_bounded(steps.drop_first());
    }
}

/// A node that no future has passed through is well-formed.
pub proof fn lemma_fresh_well_formed(node: ActionNode, environment_info: EnvironmentInfo)
    requires
        node.is_fresh(environment_info),
    ensures
        node.well_formed(),
        forall|path: Seq<Step>| #[trigger] node.visits_at(path) == 0,
        forall|path: Seq<Step>| #[trigger] node.total_at(path) == 0,
        forall|path: Seq<Step>, action: Action| #[trigger] node.chance_at(path, action) is None,
{
    assert forall|path: Seq<Step>| #[trigger] node.visits_at(path) == 0 && node.total_at(path) == 0
        && (forall|action: Action| #[trigger] node.chance_at(path, action) is None)
        && node.sound_at(path) && node.uniform_at(path) by {
        lemma_fresh_at(node, environment_info, path);
        assert forall|step: Step| #[trigger] node.visits_at(path.push(step)) == 0 by {
            lemma_fresh_at(node, environment_info, path.push(step));
        }
    }
}

/// Below a node that no future has passed through, there is nothing.
proof fn lemma_fresh_at(node: ActionNode, environment_info: EnvironmentInfo, path: Seq<Step>)
    requires
        node.is_fresh(environment_info),
    ensures
        node.visits_at(path) == 0,
        node.total_at(path) == 0,
        path.len() > 0 ==> node.node_at(path) is None,
        forall|action: Action| #[trigger] node.chance_at(path, action) is None,
{
    if path.len() > 0 {
        assert(node.spec_child(path[0].action) is None);
    }
}

/// The node that a step leads to is the node at the path of that one step,
/// and what lies below it lies below the path that starts with the step.
proof fn lemma_node_at_step(
    node: ActionNode,
    chance: ChanceNode,
    next: ActionNode,
    step: Step,
    path: Seq<Step>,
)
    requires
        node.spec_child(step.action) == Some(chance),
        chance.spec_child(step.percept) == Some(next),
    ensures
        node.node_at(seq![step] + path) == next.node_at(path),
{
    let longer = seq![step] + path;
    assert(longer[0] == step);
    assert(longer.drop_first() == path);
}

/// Where every node of a tree knows the same of the environment, so do the
/// nodes that a step leads to and the tree below them. `chance` and `next`
/// are the nodes that `step` leads to, or fresh nodes where those have not
/// been made.
proof fn lemma_child_uniform(node: ActionNode, chance: ChanceNode, next: ActionNode, step: Step)
    requires
        node.uniform(),
        match node.spec_child(step.action) {
            Some(child) => chance == child,
            None => chance.is_fresh(node.spec_info()),
        },
        match chance.spec_child(step.percept) {
            Some(child) => next == child,
            None => next.is_fresh(chance.spec_info()),
        },
    ensures
        chance.spec_info() == node.spec_info(),
        next.spec_info() == node.spec_info(),
        next.uniform(),
{
    let empty = Seq::<Step>::empty();
    assert(node.uniform_at(empty));
    assert(node.node_at(empty) == Some(node));
    assert(node.chance_at(empty, step.action) == node.spec_child(step.action));
    if node.spec_child(step.action) is Some && chance.spec_child(step.percept) is Some {
        lemma_node_at_step(node, chance, next, step, empty);
        assert(seq![step] + empty == seq![step]);
        assert(next.node_at(empty) == Some(next));
        assert(node.uniform_at(seq![step]));
        assert forall|path: Seq<Step>| #[trigger] next.uniform_at(path) by {
            lemma_node_at_step(node, chance, next, step, path);
            assert(node.uniform_at(seq![step] + path));
            assert forall|action: Action|
                match #[trigger] next.chance_at(path, action) {
                    Some(below) => below.spec_info() == next.spec_info(),
                    None => true,
                } by {
                assert(node.chance_at(seq![step] + path, action) == next.chance_at(path, action));
            }
        }
    } else {
        lemma_fresh_well_formed(next, chance.spec_info());
    }
}

/// Where a tree is well-formed, so is the tree below each of its steps, and
/// no node is visited more often than the node above it. `chance` and
/// `next` are the nodes that `step` leads to, or fresh nodes where those
/// have not been made.
pub(crate) proof fn lemma_child_well_formed(
    node: ActionNode,
    chance: ChanceNode,
    next: ActionNode,
    step: Step,
)
    requires
        node.well_formed(),
        match node.spec_child(step.action) {
            Some(child) => chance == child,
            None => chance.is_fresh(node.spec_info()),
        },
        match chance.spec_child(step.percept) {
            Some(child) => next == child,
            None => next.is_fresh(chance.spec_info()),
        },
    ensures
        next.well_formed(),
        chance.spec_info() == node.spec_info(),
        next.spec_info() == node.spec_info(),
        next.spec_visits() <= chance.spec_visits() <= node.spec_visits(),
        -chance.spec_visits() * return_bound() <= chance.spec_total_reward()
            <= chance.spec_visits() * return_bound(),
        -node.spec_visits() * return_bound() <= node.spec_total_reward() <= node.spec_visits()
            * return_bound(),
{
    let empty = Seq::<Step>::empty();
    lemma_child_uniform(node, chance, next, step);
    assert(node.sound_at(empty));
    assert(node.node_at(empty) == Some(node));
    assert(node.chance_visits_at(empty, step.action) <= node.visits_at(empty));
    assert(-node.chance_visits_at(empty, step.action) * return_bound() <= node.chance_total_at(
        empty,
        step.action,
    ) <= node.chance_visits_at(empty, step.action) * return_bound());
    if node.spec_child(step.action) is Some && chance.spec_child(step.percept) is Some {
        assert(node.visits_at(empty.push(step)) <= node.chance_visits_at(empty, step.action));
        lemma_node_at_step(node, chance, next, step, empty);
        assert(seq![step] + empty == empty.push(step));
        assert(next.node_at(empty) == Some(next));
        assert forall|path: Seq<Step>| #[trigger] next.sound_at(path) by {
            let longer = seq![step] + path;
            assert(node.sound_at(longer));
            lemma_node_at_step(node, chance, next, step, path);
            assert forall|further: Step| #[trigger]
                next.visits_at(path.push(further)) <= next.chance_visits_at(
                    path,
                    further.action,
                ) by {
                lemma_node_at_step(node, chance, next, step, path.push(further));
                assert(seq![step] + path.push(further) == longer.push(further));
                assert(node.visits_at(longer.push(further)) <= node.chance_visits_at(
                    longer,
                    further.action,
                ));
            }
            assert forall|action: Action| #[trigger]
                next.chance_visits_at(path, action) <= next.visits_at(path) by {
                assert(node.chance_visits_at(longer, action) <= node.visits_at(longer));
            }
            assert forall|action: Action|
                -next.chance_visits_at(path, action) * return_bound()
                    <= #[trigger] next.chance_total_at(path, action) <= next.chance_visits_at(
                    path,
                    action,
                ) * return_bound() by {
                assert(-node.chance_visits_at(longer, action) * return_bound()
                    <= node.chance_total_at(longer, action) <= node.chance_visits_at(longer, action)
                    * return_bound());
            }
        }
    } else {
        if node.spec_child(step.action) is Some {
            lemma_fresh_well_formed(next, chance.spec_info());
        } else {
            lemma_fresh_well_formed(next, chance.spec_info());
        }
    }
}

/// What the nodes around the first step of a future look like once the
/// future is recorded: the node itself and the chance node of the step's
/// action are visited once more and have the future's rewards added, and
/// the future's remaining steps are recorded below the step's percept.
pub(crate) open spec fn step_recorded(
    before: ActionNode,
    after: ActionNode,
    chance_before: ChanceNode,
    chance_after: ChanceNode,
    next_before: ActionNode,
    next_after: ActionNode,
    steps: Seq<Step>,
) -> bool {
    &&& steps.len() > 0
    &&& after.spec_visits() == before.spec_visits() + 1
    &&& after.spec_total_reward() == before.spec_total_reward() + return_of(steps)
    &&& after.spec_info() == before.spec_info()
    &&& forall|action: Action|
        action != steps[0].action ==> after.spec_child(action) == before.spec_child(action)
    &&& after.spec_child(steps[0].action) == Some(chance_after)
    &&& match before.spec_child(steps[0].action) {
        Some(child) => chance_before == child,
        None => chance_before.is_fresh(before.spec_info()),
    }
    &&& chance_after.spec_visits() == chance_before.spec_visits() + 1
    &&& chance_after.spec_total_reward() == chance_before.spec_total_reward() + return_of(steps)
    &&& chance_after.spec_info() == chance_before.spec_info()
    &&& forall|percept: Percept|
        percept != steps[0].percept ==> chance_after.spec_child(percept)
            == chance_before.spec_child(percept)
    &&& chance_after.spec_child(steps[0].percept) == Some(next_after)
    &&& match chance_before.spec_child(steps[0].percept) {
        Some(child) => next_before == child,
        None => next_before.is_fresh(chance_before.spec_info()),
    }
    &&& recorded(next_before, next_after, steps.drop_first())
}

/// What `step_recorded` means for the counts at one path.
proof fn lemma_record_step_at(
    before: ActionNode,
    after: ActionNode,
    chance_before: ChanceNode,
    chance_after: ChanceNode,
    next_before: ActionNode,
    next_after: ActionNode,
    steps: Seq<Step>,
    path: Seq<Step>,
    action: Action,
)
    requires
        step_recorded(
            before,
            after,
            chance_before,
            chance_after,
            next_before,
            next_after,
            steps,
        ),
    ensures
        after.visits_at(path) == before.visits_at(path) + visits_gained(path, steps),
        after.total_at(path) == before.total_at(path) + reward_gained(path, steps),
        after.chance_visits_at(path, action) == before.chance_visits_at(path, action) + if passes_by(
            path,
            action,
            steps,
        ) {
            1nat
        } else {
            0nat
        },
        after.chance_total_at(path, action) == before.chance_total_at(path, action) + if passes_by(
            path,
            action,
            steps,
        ) {
            return_of(steps.skip(path.len() as int))
        } else {
            0
        },
{
    let first = steps[0];
    let tail = steps.drop_first();
    if path.len() == 0 {
        assert(passes(path, steps));
        assert(steps.skip(0) == steps);
        assert(after.node_at(path) == Some(after));
        assert(before.node_at(path) == Some(before));
        assert(passes_by(path, action, steps) == (action == first.action));
    } else {
        let head = path[0];
        let rest = path.drop_first();
        if head != first {
            assert(!passes(path, steps)) by {
                if passes(path, steps) {
                    assert(steps[0] == path[0]);
                }
            }
            assert(after.node_at(path) == before.node_at(path)) by {
                if head.action == first.action {
                    assert(head.percept != first.percept);
                    assert(chance_after.spec_child(head.percept) == chance_before.spec_child(
                        head.percept,
                    ));
                }
            }
        } else {
            // Below the step's percept the counts are those of `next`.
            assert(after.node_at(path) == next_after.node_at(rest));
            if before.spec_child(first.action) is Some && chance_before.spec_child(first.percept)
                is Some {
                assert(before.node_at(path) == next_before.node_at(rest));
            } else {
                assert(before.node_at(path) is None);
                lemma_fresh_at(next_before, chance_before.spec_info(), rest);
                assert(next_before.chance_at(rest, action) is None);
            }
            assert(before.visits_at(path) == next_before.visits_at(rest));
            assert(before.total_at(path) == next_before.total_at(rest));
            assert(before.chance_visits_at(path, action) == next_before.chance_visits_at(
                rest,
                action,
            ));
            assert(before.chance_total_at(path, action) == next_before.chance_total_at(
                rest,
                action,
            ));
            assert(next_after.visits_at(rest) == next_before.visits_at(rest) + visits_gained(
                rest,
                tail,
            ));
            assert(next_after.total_at(rest) == next_before.total_at(rest) + reward_gained(
                rest,
                tail,
            ));
            assert(next_after.chance_visits_at(rest, action) == next_before.chance_visits_at(
                rest,
                action,
            ) + if passes_by(rest, action, tail) {
                1nat
            } else {
                0nat
            });
            assert(next_after.chance_total_at(rest, action) == next_before.chance_total_at(
                rest,
                action,
            ) + if passes_by(rest, action, tail) {
                return_of(tail.skip(rest.len() as int))
            } else {
                0
            });
            assert(passes(path, steps) == passes(rest, tail)) by {
                if passes(rest, tail) {
                    assert forall|i: int| 0 <= i < path.len() implies steps[i]
                        == #[trigger] path[i] by {
                        if i > 0 {
                            assert(tail[i - 1] == rest[i - 1]);
                        }
                    }
                }
                if passes(path, steps) {
                    assert forall|i: int| 0 <= i < rest.len() implies tail[i]
                        == #[trigger] rest[i] by {
                        assert(steps[i + 1] == path[i + 1]);
                    }
                }
            }
            if passes(path, steps) {
                assert(steps.skip(path.len() as int) =~= tail.skip(rest.len() as int));
                assert(steps[path.len() as int] == tail[rest.len() as int]);
            }
            assert(passes_by(path, action, steps) == passes_by(rest, action, tail));
        }
    }
}

/// What `step_recorded` means for what the nodes at one path know of the
/// environment.
proof fn lemma_record_step_uniform_at(
    before: ActionNode,
    after: ActionNode,
    chance_before: ChanceNode,
    chance_after: ChanceNode,
    next_before: ActionNode,
    next_after: ActionNode,
    steps: Seq<Step>,
    path: Seq<Step>,
)
    requires
        step_recorded(
            before,
            after,
            chance_before,
            chance_after,
            next_before,
            next_after,
            steps,
        ),
        before.uniform(),
    ensures
        after.uniform_at(path),
{
    let first = steps[0];
    lemma_child_uniform(before, chance_before, next_before, first);
    assert(before.uniform_at(path));
    if path.len() == 0 {
        assert(after.node_at(path) == Some(after));
        assert(before.node_at(path) == Some(before));
        assert forall|action: Action|
            match #[trigger] after.chance_at(path, action) {
                Some(node) => node.spec_info() == after.spec_info(),
                None => true,
            } by {
            if action != first.action {
                assert(after.chance_at(path, action) == before.chance_at(path, action));
            }
        }
    } else {
        let head = path[0];
        let rest = path.drop_first();
        if head != first {
            assert(after.node_at(path) == before.node_at(path)) by {
                if head.action == first.action {
                    assert(chance_after.spec_child(head.percept) == chance_before.spec_child(
                        head.percept,
                    ));
                }
            }
            assert forall|action: Action|
                match #[trigger] after.chance_at(path, action) {
                    Some(node) => node.spec_info() == after.spec_info(),
                    None => true,
                } by {
                assert(after.chance_at(path, action) == before.chance_at(path, action));
            }
        } else {
            assert(after.node_at(path) == next_after.node_at(rest));
            assert(next_after.uniform_at(rest));
            assert forall|action: Action|
                match #[trigger] after.chance_at(path, action) {
                    Some(node) => node.spec_info() == after.spec_info(),
                    None => true,
                } by {
                assert(after.chance_at(path, action) == next_after.chance_at(rest, action));
            }
        }
    }
}

/// Recording the first step of a future around a node, and the rest of the
/// future below that step, records the future at the node.
pub(crate) proof fn lemma_record_step(
    before: ActionNode,
    after: ActionNode,
    chance_before: ChanceNode,
    chance_after: ChanceNode,
    next_before: ActionNode,
    next_after: ActionNode,
    steps: Seq<Step>,
)
    requires
        step_recorded(
            before,
            after,
            chance_before,
            chance_after,
            next_before,
            next_after,
            steps,
        ),
    ensures
        recorded(before, after, steps),
{
    if before.uniform() {
        assert forall|path: Seq<Step>| #[trigger] after.uniform_at(path) by {
            lemma_record_step_uniform_at(
                before,
                after,
                chance_before,
                chance_after,
                next_before,
                next_after,
                steps,
                path,
            );
        }
    }
    assert forall|path: Seq<Step>| #[trigger]
        after.visits_at(path) == before.visits_at(path) + visits_gained(path, steps) by {
        lemma_record_step_at(
            before,
            after,
            chance_before,
            chance_after,
            next_before,
            next_after,
            steps,
            path,
            Action(0),
        );
    }
    assert forall|path: Seq<Step>| #[trigger]
        after.total_at(path) == before.total_at(path) + reward_gained(path, steps) by {
        lemma_record_step_at(
            before,
            after,
            chance_before,
            chance_after,
            next_before,
            next_after,
            steps,
            path,
            Action(0),
        );
    }
    assert forall|path: Seq<Step>, action: Action| #[trigger]
        after.chance_visits_at(path, action) == before.chance_visits_at(path, action) + if passes_by(
            path,
            action,
            steps,
        ) {
            1nat
        } else {
            0nat
        } by {
        lemma_record_step_at(
            before,
            after,
            chance_before,
            chance_after,
            next_before,
            next_after,
            steps,
            path,
            action,
        );
    }
    assert forall|path: Seq<Step>, action: Action| #[trigger]
        after.chance_total_at(path, action) == before.chance_total_at(path, action) + if passes_by(
            path,
            action,
            steps,
        ) {
            return_of(steps.skip(path.len() as int))
        } else {
            0
        } by {
        lemma_record_step_at(
            before,
            after,
            chance_before,
            chance_after,
            next_before,
            next_after,
            steps,
            path,
            action,
        );
    }
}

/// Recording a future of no more than `MAX_HORIZON` steps keeps a tree
/// well-formed.
pub proof fn lemma_recorded_keeps_well_formed(
    before: ActionNode,
    after: ActionNode,
    steps: Seq<Step>,
)
    requires
        before.well_formed(),
        recorded(before, after, steps),
        steps.len() <= MAX_HORIZON,
    ensures
        after.well_formed(),
{
    assert forall|path: Seq<Step>| #[trigger] after.sound_at(path) by {
        assert(before.sound_at(path));
        assert(after.visits_at(path) == before.visits_at(path) + visits_gained(path, steps));
        assert(after.total_at(path) == before.total_at(path) + reward_gained(path, steps));
        if passes(path, steps) {
            lemma_return_bounded(steps.skip(path.len() as int));
        }
        assert forall|action: Action| #[trigger]
            after.chance_visits_at(path, action) <= after.visits_at(path) by {
            assert(before.chance_visits_at(path, action) <= before.visits_at(path));
        }
        assert forall|action: Action|
            -after.chance_visits_at(path, action) * return_bound()
                <= #[trigger] after.chance_total_at(path, action) <= after.chance_visits_at(
                path,
                action,
            ) * return_bound() by {
            assert(-before.chance_visits_at(path, action) * return_bound()
                <= before.chance_total_at(path, action) <= before.chance_visits_at(path, action)
                * return_bound());
            assert(after.chance_visits_at(path, action) == before.chance_visits_at(path, action)
                + if passes_by(path, action, steps) {
                1nat
            } else {
                0nat
            });
        }
        assert forall|step: Step| #[trigger]
            after.visits_at(path.push(step)) <= after.chance_visits_at(path, step.action) by {
            let longer = path.push(step);
            assert(before.visits_at(longer) <= before.chance_visits_at(path, step.action));
            assert(after.visits_at(longer) == before.visits_at(longer) + visits_gained(
                longer,
                steps,
            ));
            assert(after.chance_visits_at(path, step.action) == before.chance_visits_at(
                path,
                step.action,
            ) + if passes_by(path, step.action, steps) {
                1nat
            } else {
                0nat
            });
            if passes(longer, steps) {
                assert(steps[path.len() as int] == longer[path.len() as int]);
                assert forall|i: int| 0 <= i < path.len() implies steps[i] == #[trigger] path[i] by {
                    assert(steps[i] == longer[i]);
                }
                assert(passes_by(path, step.action, steps));
            }
        }
    }
}

} // verus!
