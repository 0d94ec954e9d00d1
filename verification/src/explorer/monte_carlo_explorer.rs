//! The search tree of a Monte Carlo planner: action nodes, where the agent
//! chooses, alternate with chance nodes, where the environment reacts. A
//! path through the tree is a possible future.

use crate::environment::EnvironmentInfo;
use crate::explorer::recording::{
    lemma_child_well_formed, lemma_record_step, lemma_recorded_keeps_well_formed,
    lemma_return_bounded,
};
use crate::explorer::selection::{
    actions_where, is_top_action, is_top_action_fn, lemma_actions_where,
    lemma_actions_where_agree, lemma_means_ordered, lemma_top_action_exists, max_score_actions,
    mean_at_most, pick_random, top_actions,
};
use crate::random::Random;
use crate::types::{Action, Percept};
use std::collections::HashMap;
use vstd::prelude::*;

verus! {

broadcast use vstd::std_specs::hash::group_hash_axioms;

/// The number of visits that every child of an action node is owed before
/// exploring and exploiting are traded off.
pub const MIN_VISITS: usize = 1;

/// The most futures that a tree records: a bound that keeps every count and
/// every sum of rewards within its integer type.
pub const MAX_VISITS: usize = 0x7fff_ffff;

/// The most steps of one future.
pub const MAX_HORIZON: usize = 0x1_0000;

/// A bound on the sum of the rewards of one future, in either direction.
pub open spec fn return_bound() -> int {
    0x8000_0000
}

/// One step of a simulated future: what the agent did and what came back.
#[derive(Copy, Clone, Debug, PartialEq, Eq, Structural)]
pub struct Step {
    pub action: Action,
    pub percept: Percept,
}

/// The sum of the rewards of `steps`.
pub open spec fn return_of(steps: Seq<Step>) -> int
    decreases steps.len(),
{
    if steps.len() == 0 {
        0
    } else {
        steps[0].percept.1.0 + return_of(steps.drop_first())
    }
}

/// Whether a future of `steps` takes a step at the action node that `path`
/// leads to: `path` is the start of `steps`, and a step follows it.
pub open spec fn passes(path: Seq<Step>, steps: Seq<Step>) -> bool {
    &&& path.len() < steps.len()
    &&& forall|i: int| 0 <= i < path.len() ==> steps[i] == #[trigger] path[i]
}

/// What one future of `steps` adds to the visits of the action node at
/// `path`.
pub open spec fn visits_gained(path: Seq<Step>, steps: Seq<Step>) -> nat {
    if passes(path, steps) {
        1
    } else {
        0
    }
}

/// What one future of `steps` adds to the rewards summed at the action node
/// at `path`: the rewards that it collects from there on.
pub open spec fn reward_gained(path: Seq<Step>, steps: Seq<Step>) -> int {
    if passes(path, steps) {
        return_of(steps.skip(path.len() as int))
    } else {
        0
    }
}

/// Whether a future of `steps` takes `action` at the action node that
/// `path` leads to.
pub open spec fn passes_by(path: Seq<Step>, action: Action, steps: Seq<Step>) -> bool {
    passes(path, steps) && steps[path.len() as int].action == action
}

/// The number under which a chance node files the child of `percept`.
pub open spec fn spec_percept_key(percept: Percept) -> i64 {
    (percept.0.0 * 65536 + percept.1.0) as i64
}

/// The number under which a chance node files the child of `percept`.
/// Different percepts have different numbers.
pub fn percept_key(percept: Percept) -> (key: i64)
    ensures
        key == spec_percept_key(percept),
        forall|other: Percept| spec_percept_key(other) == key ==> other == percept,
{
    let Percept(observation, reward) = percept;
    (observation.0 as i64) * 65536 + (reward.0 as i64)
}

/// A node where the environment reacts to an action.
pub struct ChanceNode {
    visits: usize,
    environment_info: EnvironmentInfo,
    total_reward: i64,
    children: HashMap<i64, ActionNode>,
}

/// A node where the agent has to choose an action.
pub struct ActionNode {
    visits: usize,
    environment_info: EnvironmentInfo,
    total_reward: i64,
    children: HashMap<i16, ChanceNode>,
}

impl ChanceNode {
    /// How often a simulated future has passed through this node.
    pub closed spec fn spec_visits(&self) -> nat {
        self.visits as nat
    }

    /// The sum of the rewards that those futures collected from here on.
    pub closed spec fn spec_total_reward(&self) -> int {
        self.total_reward as int
    }

    /// What the node knows of the environment.
    pub closed spec fn spec_info(&self) -> EnvironmentInfo {
        self.environment_info
    }

    /// The node that follows `percept`, if it has been made.
    pub closed spec fn spec_child(&self, percept: Percept) -> Option<ActionNode> {
        if self.children@.contains_key(spec_percept_key(percept)) {
            Some(self.children@[spec_percept_key(percept)])
        } else {
            None
        }
    }

    /// Whether no future has passed through the node, which knows
    /// `environment_info` of the environment.
    pub open spec fn is_fresh(&self, environment_info: EnvironmentInfo) -> bool {
        &&& self.spec_visits() == 0
        &&& self.spec_total_reward() == 0
        &&& self.spec_info() == environment_info
        &&& forall|percept: Percept| self.spec_child(percept) is None
    }

    /// A node that no future has passed through.
    pub fn new(environment_info: EnvironmentInfo) -> (node: ChanceNode)
        ensures
            node.is_fresh(environment_info),
    {
        ChanceNode { visits: 0, environment_info, total_reward: 0, children: HashMap::new() }
    }

    /// How often a simulated future has passed through this node.
    pub fn visits(&self) -> (visits: usize)
        ensures
            visits == self.spec_visits(),
    {
        self.visits
    }

    /// The sum of the rewards that the futures through this node collected
    /// from here on. Over the visits it is the node's mean reward.
    pub fn total_reward(&self) -> (total: i64)
        ensures
            total == self.spec_total_reward(),
    {
        self.total_reward
    }

    /// Whether the node has been visited less often than every node is
    /// owed.
    pub fn requires_visit(&self) -> (owed: bool)
        ensures
            owed == (self.spec_visits() < MIN_VISITS),
    {
        self.visits < MIN_VISITS
    }

    /// Counts one more future through this node, which collected `sample`
    /// from here on.
    pub fn record_sample(&mut self, sample: i64)
        requires
            old(self).spec_visits() < usize::MAX,
            i64::MIN <= old(self).spec_total_reward() + sample <= i64::MAX,
        ensures
            final(self).spec_visits() == old(self).spec_visits() + 1,
            final(self).spec_total_reward() == old(self).spec_total_reward() + sample,
            final(self).spec_info() == old(self).spec_info(),
            forall|percept: Percept| final(self).spec_child(percept) == old(self).spec_child(percept),
    {
        self.visits = self.visits + 1;
        self.total_reward = self.total_reward + sample;
    }

    /// The node that follows `percept`, if it has been made.
    pub fn child(&self, percept: Percept) -> (child: Option<&ActionNode>)
        ensures
            child is Some == self.spec_child(percept) is Some,
            child is Some ==> *child->0 == self.spec_child(percept)->0,
    {
        let key = percept_key(percept);
        self.children.get(&key)
    }

    /// The node that follows `percept`, to work on. It is made if it is not
    /// there yet.
    pub fn mut_child(&mut self, percept: Percept) -> (child: &mut ActionNode)
        ensures
            match old(self).spec_child(percept) {
                Some(node) => *child == node,
                None => child.is_fresh(old(self).spec_info()),
            },
            final(self).spec_child(percept) == Some(*final(child)),
            forall|other: Percept|
                other != percept ==> final(self).spec_child(other) == old(self).spec_child(other),
            final(self).spec_visits() == old(self).spec_visits(),
            final(self).spec_total_reward() == old(self).spec_total_reward(),
            final(self).spec_info() == old(self).spec_info(),
    {
        let key = percept_key(percept);
        let fresh = ActionNode::new(self.environment_info);
        self.children.entry(key).or_insert(fresh)
    }
}

impl ActionNode {
    /// How often a simulated future has acted at this node.
    pub closed spec fn spec_visits(&self) -> nat {
        self.visits as nat
    }

    /// The sum of the rewards that those futures collected from here on.
    pub closed spec fn spec_total_reward(&self) -> int {
        self.total_reward as int
    }

    /// What the node knows of the environment.
    pub closed spec fn spec_info(&self) -> EnvironmentInfo {
        self.environment_info
    }

    /// The node that follows `action`, if it has been made.
    pub closed spec fn spec_child(&self, action: Action) -> Option<ChanceNode> {
        if self.children@.contains_key(action.0) {
            Some(self.children@[action.0])
        } else {
            None
        }
    }

    /// Whether no future has passed through the node, which knows
    /// `environment_info` of the environment.
    pub open spec fn is_fresh(&self, environment_info: EnvironmentInfo) -> bool {
        &&& self.spec_visits() == 0
        &&& self.spec_total_reward() == 0
        &&& self.spec_info() == environment_info
        &&& forall|action: Action| self.spec_child(action) is None
    }

    /// A node that no future has passed through.
    pub fn new(environment_info: EnvironmentInfo) -> (node: ActionNode)
        ensures
            node.is_fresh(environment_info),
    {
        ActionNode { visits: 0, environment_info, total_reward: 0, children: HashMap::new() }
    }

    /// How often a simulated future has acted at this node.
    pub fn visits(&self) -> (visits: usize)
        ensures
            visits == self.spec_visits(),
    {
        self.visits
    }

    /// The sum of the rewards that the futures through this node collected
    /// from here on. Over the visits it is the node's mean reward.
    pub fn total_reward(&self) -> (total: i64)
        ensures
            total == self.spec_total_reward(),
    {
        self.total_reward
    }

    /// What the node knows of the environment.
    pub fn environment_info(&self) -> (info: EnvironmentInfo)
        ensures
            info == self.spec_info(),
    {
        self.environment_info
    }

    /// Whether the node has been visited less often than every node is
    /// owed.
    pub fn requires_visit(&self) -> (owed: bool)
        ensures
            owed == (self.spec_visits() < MIN_VISITS),
    {
        self.visits < MIN_VISITS
    }

    /// The node that follows `action`, if it has been made.
    pub fn child(&self, action: Action) -> (child: Option<&ChanceNode>)
        ensures
            child is Some == self.spec_child(action) is Some,
            child is Some ==> *child->0 == self.spec_child(action)->0,
    {
        self.children.get(&action.0)
    }

    /// The node that follows `action`, to work on. It is made if it is not
    /// there yet.
    pub fn mut_child(&mut self, action: Action) -> (child: &mut ChanceNode)
        ensures
            match old(self).spec_child(action) {
                Some(node) => *child == node,
                None => child.is_fresh(old(self).spec_info()),
            },
            final(self).spec_child(action) == Some(*final(child)),
            forall|other: Action|
                other != action ==> final(self).spec_child(other) == old(self).spec_child(other),
            final(self).spec_visits() == old(self).spec_visits(),
            final(self).spec_total_reward() == old(self).spec_total_reward(),
            final(self).spec_info() == old(self).spec_info(),
    {
        let fresh = ChanceNode::new(self.environment_info);
        self.children.entry(action.0).or_insert(fresh)
    }

    /// How often the child of `action` has been visited; a child that has
    /// not been made has not been visited.
    pub open spec fn child_visits(&self, action: Action) -> nat {
        match self.spec_child(action) {
            Some(child) => child.spec_visits(),
            None => 0,
        }
    }

    /// Whether the child of `action` is owed a visit before any score
    /// counts.
    pub open spec fn owes_visit(&self, action: Action) -> bool {
        self.child_visits(action) < MIN_VISITS
    }

    /// The actions whose children are owed a visit, in ascending order.
    pub open spec fn owed_actions(&self) -> Seq<Action> {
        actions_where(self.owes_visit_fn(), self.spec_info()@.num_actions as int)
    }

    /// `owes_visit` as a function of the action.
    pub open spec fn owes_visit_fn(&self) -> spec_fn(Action) -> bool {
        |action: Action| self.owes_visit(action)
    }

    /// The actions to choose among: those whose children are owed a visit,
    /// if there are any, and else those with the highest score. `scores`
    /// holds one score per action.
    pub open spec fn candidates(&self, scores: Seq<u64>) -> Seq<Action> {
        if self.owed_actions().len() > 0 {
            self.owed_actions()
        } else {
            top_actions(scores, self.spec_info()@.num_actions as int)
        }
    }

    /// Whether the child of `action` is owed a visit.
    pub fn child_requires_visit(&self, action: Action) -> (owed: bool)
        ensures
            owed == self.owes_visit(action),
    {
        match self.child(action) {
            Some(child) => child.requires_visit(),
            None => true,
        }
    }

    /// The actions whose children are owed a visit, in ascending order.
    pub fn require_visit(&self) -> (owed: Vec<Action>)
        ensures
            owed@ == self.owed_actions(),
    {
        let count = self.environment_info.num_actions();
        let mut owed: Vec<Action> = Vec::new();
        let mut a: i16 = 0;
        while a < count
            invariant
                count == self.spec_info()@.num_actions,
                0 <= a,
                a <= count || a == 0,
                owed@ == actions_where(self.owes_visit_fn(), a as int),
            decreases count - a,
        {
            let action = Action(a);
            if self.child_requires_visit(action) {
                owed.push(action);
            }
            a = a + 1;
        }
        assert(count < 0 ==> actions_where(self.owes_visit_fn(), count as int) == actions_where(
            self.owes_visit_fn(),
            0,
        ));
        owed
    }

    /// The actions to choose among: those whose children are owed a visit,
    /// if there are any, whatever the scores say; else those with the highest
    /// score. `scores` holds one score per action; it is not looked at while
    /// a visit is owed.
    pub fn candidate_actions(&self, scores: &Vec<u64>) -> (candidates: Vec<Action>)
        requires
            self.spec_info()@.num_actions > 0,
            self.owed_actions().len() == 0 ==> scores@.len() == self.spec_info()@.num_actions,
        ensures
            candidates@ == self.candidates(scores@),
            candidates@.len() > 0,
    {
        let count = self.environment_info.num_actions();
        let require_visit = self.require_visit();
        if require_visit.len() > 0 {
            return require_visit;
        }
        let max_ucb_children = max_score_actions(scores, count);
        proof {
            lemma_actions_where(is_top_action_fn(scores@, count as int), count as int);
            lemma_top_action_exists(scores@, count as int);
            let best = choose|action: Action| is_top_action(scores@, count as int, action);
            assert(max_ucb_children@.contains(best));
        }
        max_ucb_children
    }

    /// Chooses the action to try next: one whose child is owed a visit, if
    /// there is any, whatever the scores say; else one with the highest
    /// score. Where several qualify, `random` decides among them: the action
    /// is the candidate at the place that `random` draws.
    pub fn select_explore_exploit<R: Random + ?Sized>(
        &self,
        scores: &Vec<u64>,
        random: &mut R,
    ) -> (action: Action)
        requires
            self.spec_info()@.num_actions > 0,
            self.owed_actions().len() == 0 ==> scores@.len() == self.spec_info()@.num_actions,
        ensures
            self.candidates(scores@).contains(action),
            (exists|owed: Action| self.spec_info().allows(owed) && self.owes_visit(owed))
                ==> self.owes_visit(action),
            self.owed_actions().len() == 0 ==> is_top_action(
                scores@,
                self.spec_info()@.num_actions as int,
                action,
            ),
            self.spec_info().allows(action),
    {
        let candidates = self.candidate_actions(scores);
        proof {
            let count = self.spec_info()@.num_actions as int;
            lemma_actions_where(self.owes_visit_fn(), count);
            lemma_actions_where(is_top_action_fn(scores@, count), count);
            if exists|owed: Action| self.spec_info().allows(owed) && self.owes_visit(owed) {
                let owed = choose|owed: Action|
                    self.spec_info().allows(owed) && self.owes_visit(owed);
                assert(self.owed_actions().contains(owed));
            }
        }
        pick_random(&candidates, random)
    }

    /// Counts one more future that acted at this node and collected
    /// `sample` from here on.
    pub fn record_sample(&mut self, sample: i64)
        requires
            old(self).spec_visits() < usize::MAX,
            i64::MIN <= old(self).spec_total_reward() + sample <= i64::MAX,
        ensures
            final(self).spec_visits() == old(self).spec_visits() + 1,
            final(self).spec_total_reward() == old(self).spec_total_reward() + sample,
            final(self).spec_info() == old(self).spec_info(),
            forall|action: Action| final(self).spec_child(action) == old(self).spec_child(action),
    {
        self.visits = self.visits + 1;
        self.total_reward = self.total_reward + sample;
    }

    /// Records one simulated future from this node down: `trajectory`,
    /// from its step `from` on. Every node on the way is visited once more
    /// and has the rewards that the future collects from there on added to
    /// its sum; nodes that are missing on the way are made. Returns the
    /// rewards collected from this node on.
    pub fn record(&mut self, trajectory: &Vec<Step>, from: usize) -> (reward: i64)
        requires
            old(self).well_formed(),
            old(self).spec_visits() < MAX_VISITS,
            from <= trajectory@.len(),
            trajectory@.len() - from <= MAX_HORIZON,
        ensures
            reward == return_of(trajectory@.skip(from as int)),
            recorded(*old(self), *final(self), trajectory@.skip(from as int)),
            final(self).well_formed(),
        decreases trajectory@.len() - from,
    {
        let ghost steps = trajectory@.skip(from as int);
        if from >= trajectory.len() {
            return 0;
        }
        let step = trajectory[from];
        let ghost before = *self;
        proof {
            assert(steps[0] == step);
            assert(steps.drop_first() == trajectory@.skip(from + 1));
            lemma_return_bounded(steps);
            lemma_return_bounded(steps.drop_first());
            assert(before.sound_at(Seq::empty()));
            assert(before.node_at(Seq::empty()) == Some(before));
        }
        let chance = self.mut_child(step.action);
        let ghost chance_before = *chance;
        let next = chance.mut_child(step.percept);
        let ghost next_before = *next;
        proof {
            lemma_child_well_formed(before, chance_before, next_before, step);
        }
        let below = next.record(trajectory, from + 1);
        let ghost next_after = *next;
        let reward = (step.percept.1.0 as i64) + below;
        chance.record_sample(reward);
        let ghost chance_after = *chance;
        self.record_sample(reward);
        proof {
            lemma_record_step(
                before,
                *self,
                chance_before,
                chance_after,
                next_before,
                next_after,
                steps,
            );
            lemma_recorded_keeps_well_formed(before, *self, steps);
        }
        reward
    }

    /// The action node that the steps of `path` lead to from this node, if
    /// it has been made.
    pub open spec fn node_at(&self, path: Seq<Step>) -> Option<ActionNode>
        decreases path.len(),
    {
        if path.len() == 0 {
            Some(*self)
        } else {
            match self.spec_child(path[0].action) {
                None => None,
                Some(chance) => match chance.spec_child(path[0].percept) {
                    None => None,
                    Some(next) => next.node_at(path.drop_first()),
                },
            }
        }
    }

    /// The chance node of `action` below the action node at `path`, if it
    /// has been made.
    pub open spec fn chance_at(&self, path: Seq<Step>, action: Action) -> Option<ChanceNode> {
        match self.node_at(path) {
            None => None,
            Some(node) => node.spec_child(action),
        }
    }

    /// How often a future has acted at the action node at `path`.
    pub open spec fn visits_at(&self, path: Seq<Step>) -> nat {
        match self.node_at(path) {
            None => 0,
            Some(node) => node.spec_visits(),
        }
    }

    /// The rewards summed at the action node at `path`.
    pub open spec fn total_at(&self, path: Seq<Step>) -> int {
        match self.node_at(path) {
            None => 0,
            Some(node) => node.spec_total_reward(),
        }
    }

    /// How often a future has taken `action` at the action node at `path`.
    pub open spec fn chance_visits_at(&self, path: Seq<Step>, action: Action) -> nat {
        match self.chance_at(path, action) {
            None => 0,
            Some(node) => node.spec_visits(),
        }
    }

    /// The rewards summed at the chance node of `action` below `path`.
    pub open spec fn chance_total_at(&self, path: Seq<Step>, action: Action) -> int {
        match self.chance_at(path, action) {
            None => 0,
            Some(node) => node.spec_total_reward(),
        }
    }

    /// Whether the counts around the action node at `path` fit together: a
    /// node is visited no more often than the node above it, and no sum of
    /// rewards is beyond what that many futures can have collected.
    pub open spec fn sound_at(&self, path: Seq<Step>) -> bool {
        &&& -self.visits_at(path) * return_bound() <= self.total_at(path) <= self.visits_at(path)
            * return_bound()
        &&& forall|action: Action| #[trigger]
            self.chance_visits_at(path, action) <= self.visits_at(path)
        &&& forall|action: Action|
            -self.chance_visits_at(path, action) * return_bound() <= #[trigger] self.chance_total_at(
                path,
                action,
            ) <= self.chance_visits_at(path, action) * return_bound()
        &&& forall|step: Step| #[trigger]
            self.visits_at(path.push(step)) <= self.chance_visits_at(path, step.action)
    }

    /// Whether the action node at `path` and the chance nodes below it
    /// know of the environment what this node knows.
    pub open spec fn uniform_at(&self, path: Seq<Step>) -> bool {
        &&& match self.node_at(path) {
            Some(node) => node.spec_info() == self.spec_info(),
            None => true,
        }
        &&& forall|action: Action|
            match #[trigger] self.chance_at(path, action) {
                Some(node) => node.spec_info() == self.spec_info(),
                None => true,
            }
    }

    /// Whether every node of the tree below this node knows the same of the
    /// environment.
    pub open spec fn uniform(&self) -> bool {
        forall|path: Seq<Step>| #[trigger] self.uniform_at(path)
    }

    /// Whether the counts fit together everywhere in the tree below this
    /// node, and every node knows the same of the environment.
    pub open spec fn well_formed(&self) -> bool {
        &&& forall|path: Seq<Step>| #[trigger] self.sound_at(path)
        &&& self.uniform()
    }

    /// The action node that the steps of `path` lead to from this node, if
    /// it has been made.
    pub fn descend(&self, path: &Vec<Step>) -> (node: Option<&ActionNode>)
        ensures
            node is Some == self.node_at(path@) is Some,
            node is Some ==> *node->0 == self.node_at(path@)->0,
    {
        let mut current: &ActionNode = self;
        let mut i: usize = 0;
        assert(path@.skip(0) == path@);
        while i < path.len()
            invariant
                i <= path@.len(),
                current.node_at(path@.skip(i as int)) == self.node_at(path@),
            decreases path@.len() - i,
        {
            let step = path[i];
            proof {
                assert(path@.skip(i as int)[0] == step);
                assert(path@.skip(i as int).drop_first() == path@.skip(i + 1));
            }
            match current.child(step.action) {
                None => {
                    return None;
                },
                Some(chance) => match chance.child(step.percept) {
                    None => {
                        return None;
                    },
                    Some(next) => {
                        current = next;
                    },
                },
            }
            i += 1;
        }
        Some(current)
    }

    /// The rewards summed at the child of `action`; a child that has not
    /// been made has collected nothing.
    pub open spec fn child_total(&self, action: Action) -> int {
        match self.spec_child(action) {
            Some(child) => child.spec_total_reward(),
            None => 0,
        }
    }

    /// Whether the mean reward of `lower` is no higher than that of
    /// `upper`, for two actions whose children have been visited. The means
    /// are compared as fractions, without rounding.
    pub open spec fn mean_not_above(&self, lower: Action, upper: Action) -> bool {
        self.child_total(lower) * self.child_visits(upper) <= self.child_total(upper)
            * self.child_visits(lower)
    }

    /// Whether `action` is one of the node's actions and its child has been
    /// visited.
    pub open spec fn is_tried(&self, action: Action) -> bool {
        self.spec_info().allows(action) && self.child_visits(action) > 0
    }

    /// Whether `action` has been tried and no action that has been tried
    /// has a higher mean reward.
    pub open spec fn is_best_action(&self, action: Action) -> bool {
        &&& self.is_tried(action)
        &&& forall|other: Action| #[trigger]
            self.is_tried(other) ==> self.mean_not_above(other, action)
    }

    /// `is_best_action` as a function of the action.
    pub open spec fn is_best_action_fn(&self) -> spec_fn(Action) -> bool {
        |action: Action| self.is_best_action(action)
    }

    /// The actions with the highest mean reward among those tried, in
    /// ascending order.
    pub open spec fn best_actions(&self) -> Seq<Action> {
        actions_where(self.is_best_action_fn(), self.spec_info()@.num_actions as int)
    }

    /// How often the child of `action` has been visited, and the rewards
    /// summed there; nothing for a child that has not been made.
    pub fn child_statistics(&self, action: Action) -> (statistics: (usize, i64))
        ensures
            statistics.0 == self.child_visits(action),
            statistics.1 == self.child_total(action),
    {
        match self.child(action) {
            Some(child) => (child.visits(), child.total_reward()),
            None => (0, 0),
        }
    }

    /// The tried action with the highest mean reward that comes first, if
    /// any action has been tried.
    fn first_best(&self) -> (best: Option<Action>)
        ensures
            best is None ==> forall|action: Action| !self.is_tried(action),
            best is Some ==> self.is_best_action(best->0),
    {
        let count = self.environment_info.num_actions();
        let mut best: Option<Action> = None;
        let mut a: i16 = 0;
        while a < count
            invariant
                count == self.spec_info()@.num_actions,
                0 <= a,
                a <= count || a == 0,
                best is None ==> forall|action: Action|
                    action.0 < a ==> !#[trigger] self.is_tried(action),
                best is Some ==> self.is_tried(best->0),
                best is Some ==> forall|other: Action|
                    other.0 < a && #[trigger] self.is_tried(other) ==> self.mean_not_above(
                        other,
                        best->0,
                    ),
            decreases count - a,
        {
            let action = Action(a);
            let (visits, total) = self.child_statistics(action);
            if visits > 0 {
                match best {
                    None => {
                        best = Some(action);
                    },
                    Some(leader) => {
                        let (leader_visits, leader_total) = self.child_statistics(leader);
                        if !mean_at_most(total, visits, leader_total, leader_visits) {
                            assert forall|other: Action|
                                other.0 < a && #[trigger] self.is_tried(
                                    other,
                                ) implies self.mean_not_above(other, action) by {
                                lemma_means_ordered(
                                    self.child_total(other),
                                    self.child_visits(other) as int,
                                    leader_total as int,
                                    leader_visits as int,
                                    total as int,
                                    visits as int,
                                );
                            }
                            best = Some(action);
                        }
                    },
                }
            }
            a = a + 1;
        }
        best
    }

    /// The actions to choose the best among: those with the highest mean
    /// reward among the actions that have been tried, and every action where
    /// none has been tried; in ascending order.
    pub open spec fn best_candidates(&self) -> Seq<Action> {
        if exists|tried: Action| self.is_tried(tried) {
            self.best_actions()
        } else {
            actions_where(|action: Action| true, self.spec_info()@.num_actions as int)
        }
    }

    /// The actions with the highest mean reward among the actions that have
    /// been tried, and every action where none has been tried; in ascending
    /// order.
    pub fn best_candidate_actions(&self) -> (best: Vec<Action>)
        requires
            self.spec_info()@.num_actions > 0,
        ensures
            best@ == self.best_candidates(),
            best@.len() > 0,
    {
        let count = self.environment_info.num_actions();
        let mut best: Vec<Action> = Vec::new();
        match self.first_best() {
            None => {
                let ghost any = |action: Action| true;
                let mut a: i16 = 0;
                while a < count
                    invariant
                        0 <= a <= count,
                        any == (|action: Action| true),
                        best@ == actions_where(any, a as int),
                        best@.len() == a,
                    decreases count - a,
                {
                    best.push(Action(a));
                    a = a + 1;
                }
                assert(!exists|tried: Action| self.is_tried(tried));
            },
            Some(leader) => {
                let (leader_visits, leader_total) = self.child_statistics(leader);
                let mut a: i16 = 0;
                while a < count
                    invariant
                        count == self.spec_info()@.num_actions,
                        0 <= a <= count,
                        self.is_best_action(leader),
                        leader_visits == self.child_visits(leader),
                        leader_total == self.child_total(leader),
                        best@ == actions_where(self.is_best_action_fn(), a as int),
                    decreases count - a,
                {
                    let action = Action(a);
                    let (visits, total) = self.child_statistics(action);
                    if visits > 0 && mean_at_most(leader_total, leader_visits, total, visits) {
                        assert(self.is_best_action(action)) by {
                            assert forall|other: Action| #[trigger]
                                self.is_tried(other) implies self.mean_not_above(other, action) by {
                                lemma_means_ordered(
                                    self.child_total(other),
                                    self.child_visits(other) as int,
                                    leader_total as int,
                                    leader_visits as int,
                                    total as int,
                                    visits as int,
                                );
                            }
                        }
                        best.push(action);
                    } else {
                        assert(!self.is_best_action(action)) by {
                            if self.is_best_action(action) {
                                assert(self.is_tried(leader));
                            }
                        }
                    }
                    a = a + 1;
                }
                proof {
                    lemma_actions_where(self.is_best_action_fn(), count as int);
                    assert(best@.contains(leader));
                    assert(self.is_tried(leader));
                }
            },
        }
        best
    }

    /// The best action so far: one with the highest mean reward among the
    /// actions that have been tried. Where several have it, `random` decides
    /// among them; where none has been tried, `random` decides among all
    /// actions. The action is the candidate at the place that `random` draws.
    pub fn best_action<R: Random + ?Sized>(&self, random: &mut R) -> (action: Action)
        requires
            self.spec_info()@.num_actions > 0,
        ensures
            self.best_candidates().contains(action),
            self.spec_info().allows(action),
            (exists|tried: Action| self.is_tried(tried)) ==> self.is_best_action(action),
    {
        let best = self.best_candidate_actions();
        let chosen = pick_random(&best, random);
        proof {
            let count = self.spec_info()@.num_actions as int;
            lemma_actions_where(self.is_best_action_fn(), count);
            lemma_actions_where(|action: Action| true, count);
        }
        chosen
    }
}

/// Whether `after` is `before` with one more future of `steps` recorded
/// from the root down: every node that the future passes through has one
/// visit more and the rewards that the future collects from there on added
/// to its sum, and nothing else has changed.
pub open spec fn recorded(before: ActionNode, after: ActionNode, steps: Seq<Step>) -> bool {
    &&& after.spec_info() == before.spec_info()
    &&& before.uniform() ==> after.uniform()
    &&& forall|path: Seq<Step>| #[trigger]
        after.visits_at(path) == before.visits_at(path) + visits_gained(path, steps)
    &&& forall|path: Seq<Step>| #[trigger]
        after.total_at(path) == before.total_at(path) + reward_gained(path, steps)
    &&& forall|path: Seq<Step>, action: Action| #[trigger]
        after.chance_visits_at(path, action) == before.chance_visits_at(path, action) + if passes_by(
            path,
            action,
            steps,
        ) {
            1nat
        } else {
            0nat
        }
    &&& forall|path: Seq<Step>, action: Action| #[trigger]
        after.chance_total_at(path, action) == before.chance_total_at(path, action) + if passes_by(
            path,
            action,
            steps,
        ) {
            return_of(steps.skip(path.len() as int))
        } else {
            0
        }
}

/// Keeping the sum of the rewards is keeping their running average. Where
/// the mean is the sum over the visits, the mean with one sample more is the
/// old mean moved towards the sample by the part of their distance that the
/// new number of visits allots: `mean + (sample - mean) / (visits + 1)`.
/// Multiplied out, so that no fraction is left, with `new_total` for the new
/// sum:
pub proof fn lemma_running_average(total: int, visits: int, sample: int, new_total: int)
    requires
        visits > 0,
        new_total == total + sample,
    ensures
        new_total * visits == total * (visits + 1) + (sample * visits - total),
{
    assert(new_total * visits == total * (visits + 1) + (sample * visits - total))
        by (nonlinear_arith)
        requires
            new_total == total + sample,
    ;
}

/// What a node chooses among is set by the number of actions, by how often
/// each child has been visited, and by the scores: two nodes that agree in
/// these have the same candidates, in the same order, so that the same draw
/// picks the same action at both.
pub proof fn lemma_candidates_determined(first: ActionNode, second: ActionNode, scores: Seq<u64>)
    requires
        first.spec_info()@.num_actions == second.spec_info()@.num_actions,
        forall|action: Action| first.child_visits(action) == second.child_visits(action),
    ensures
        first.candidates(scores) == second.candidates(scores),
{
    lemma_actions_where_agree(
        first.owes_visit_fn(),
        second.owes_visit_fn(),
        first.spec_info()@.num_actions as int,
    );
}

/// Which actions are the best at a node is set by the number of actions and
/// by the visits and the rewards of each child: two nodes that agree in these
/// have the same best actions, in the same order.
pub proof fn lemma_best_actions_determined(first: ActionNode, second: ActionNode)
    requires
        first.spec_info()@.num_actions == second.spec_info()@.num_actions,
        forall|action: Action| first.child_visits(action) == second.child_visits(action),
        forall|action: Action| first.child_total(action) == second.child_total(action),
    ensures
        first.best_actions() == second.best_actions(),
{
    assert forall|action: Action| first.is_best_action(action) == second.is_best_action(
        action,
    ) by {
        assert forall|other: Action| first.is_tried(other) == second.is_tried(other) by {}
        if first.is_best_action(action) {
            assert forall|other: Action| #[trigger] second.is_tried(other) implies second.mean_not_above(
                other,
                action,
            ) by {
                assert(first.is_tried(other));
            }
        }
        if second.is_best_action(action) {
            assert forall|other: Action| #[trigger] first.is_tried(other) implies first.mean_not_above(
                other,
                action,
            ) by {
                assert(second.is_tried(other));
            }
        }
    }
    lemma_actions_where_agree(
        first.is_best_action_fn(),
        second.is_best_action_fn(),
        first.spec_info()@.num_actions as int,
    );
}

} // verus!
