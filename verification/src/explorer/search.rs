//! The course of one planning call: a fixed number of simulated futures, each
//! a fixed number of steps long, recorded one after the other in a search tree.
//!
//! The search itself decides what is tried next and keeps the books. Scoring
//! the actions and simulating the environment's answer are left to the caller,
//! who hands the scores and the percepts in.

use crate::environment::EnvironmentInfo;
use crate::explorer::monte_carlo_explorer::{
    recorded, ActionNode, Step, MAX_HORIZON, MAX_VISITS,
};
use crate::random::Random;
use crate::types::{Action, Percept};
use vstd::prelude::*;

verus! {

/// A planning call under way. It alternates between two states: an action is
/// to be chosen, or a chosen action awaits the environment's answer. After
/// `horizon` steps a future is complete and is recorded in the tree; after
/// the last future the search is finished.
pub struct Search {
    root: ActionNode,
    horizon: usize,
    budget: usize,
    remaining: usize,
    trajectory: Vec<Step>,
    chosen: Option<Action>,
}

impl Search {
    /// The tree of the futures recorded so far.
    pub closed spec fn spec_root(&self) -> ActionNode {
        self.root
    }

    /// The number of steps of every future.
    pub closed spec fn spec_horizon(&self) -> nat {
        self.horizon as nat
    }

    /// The number of futures that the search records in all.
    pub closed spec fn spec_budget(&self) -> nat {
        self.budget as nat
    }

    /// The number of futures that are still to be recorded.
    pub closed spec fn spec_remaining(&self) -> nat {
        self.remaining as nat
    }

    /// The steps taken so far in the future under way.
    pub closed spec fn spec_trajectory(&self) -> Seq<Step> {
        self.trajectory@
    }

    /// The action that awaits the environment's answer, if one does.
    pub closed spec fn spec_chosen(&self) -> Option<Action> {
        self.chosen
    }

    /// The node at which the future under way stands, if it has been made.
    pub open spec fn spec_current(&self) -> Option<ActionNode> {
        self.spec_root().node_at(self.spec_trajectory())
    }

    /// Whether the search is in a state that its operations keep up.
    pub open spec fn well_formed(&self) -> bool {
        &&& self.spec_root().well_formed()
        &&& self.spec_root().spec_info()@.num_actions > 0
        &&& self.spec_horizon() <= MAX_HORIZON
        &&& self.spec_budget() <= MAX_VISITS
        &&& self.spec_root().spec_visits() + self.spec_remaining() == self.spec_budget()
        &&& self.spec_remaining() > 0 ==> self.spec_trajectory().len() < self.spec_horizon()
        &&& self.spec_remaining() == 0 ==> self.spec_trajectory().len() == 0
            && self.spec_chosen() is None
        &&& self.spec_chosen() is Some ==> self.spec_root().spec_info().allows(
            self.spec_chosen()->0,
        )
    }

    /// A search that is to record `rollouts` futures of `horizon` steps each.
    /// With a horizon of zero there is nothing to simulate, and the search is
    /// finished from the start.
    pub fn new(environment_info: EnvironmentInfo, horizon: usize, rollouts: usize) -> (search:
        Search)
        requires
            environment_info@.num_actions > 0,
            horizon <= MAX_HORIZON,
            rollouts <= MAX_VISITS,
        ensures
            search.well_formed(),
            search.spec_root().is_fresh(environment_info),
            search.spec_horizon() == horizon,
            search.spec_budget() == if horizon == 0 {
                0
            } else {
                rollouts
            },
            search.spec_remaining() == search.spec_budget(),
            search.spec_trajectory() == Seq::<Step>::empty(),
            search.spec_chosen() == None::<Action>,
    {
        let root = ActionNode::new(environment_info);
        proof {
            crate::explorer::recording::lemma_fresh_well_formed(root, environment_info);
        }
        let budget = if horizon == 0 {
            0
        } else {
            rollouts
        };
        Search { root, horizon, budget, remaining: budget, trajectory: Vec::new(), chosen: None }
    }

    /// Whether every future has been recorded.
    pub fn is_finished(&self) -> (finished: bool)
        ensures
            finished == (self.spec_remaining() == 0),
            self.well_formed() && finished ==> self.spec_root().spec_visits()
                == self.spec_budget(),
    {
        self.remaining == 0
    }

    /// Whether a chosen action awaits the environment's answer.
    pub fn awaits_percept(&self) -> (awaited: bool)
        ensures
            awaited == self.spec_chosen() is Some,
    {
        self.chosen.is_some()
    }

    /// The number of steps that the future under way still has to take.
    pub fn remaining_horizon(&self) -> (steps: usize)
        requires
            self.well_formed(),
        ensures
            steps == self.spec_horizon() - self.spec_trajectory().len(),
    {
        self.horizon - self.trajectory.len()
    }

    /// The tree of the futures recorded so far.
    pub fn root(&self) -> (root: &ActionNode)
        ensures
            *root == self.spec_root(),
    {
        &self.root
    }

    /// The node at which the future under way stands, if it has been made.
    pub fn current(&self) -> (node: Option<&ActionNode>)
        ensures
            node is Some == self.spec_current() is Some,
            node is Some ==> *node->0 == self.spec_current()->0,
    {
        self.root.descend(&self.trajectory)
    }

    /// Whether the next choice goes by the scores: the node at which the
    /// future stands has been made, and none of its children is owed a visit.
    pub fn needs_scores(&self) -> (needed: bool)
        ensures
            needed == (self.spec_current() is Some && self.spec_current()->0.owed_actions().len()
                == 0),
    {
        match self.current() {
            Some(node) => node.require_visit().len() == 0,
            None => false,
        }
    }

    /// Chooses the next action of the future under way, as the node at which
    /// the future stands chooses it; at a node that has not been made yet,
    /// every action is owed a visit, and `random` decides among them all. The
    /// action then awaits the environment's answer.
    pub fn select_action<R: Random + ?Sized>(&mut self, scores: &Vec<u64>, random: &mut R) -> (action:
        Action)
        requires
            old(self).well_formed(),
            old(self).spec_remaining() > 0,
            old(self).spec_chosen() is None,
            old(self).spec_current() is Some && old(self).spec_current()->0.owed_actions().len()
                == 0 ==> scores@.len() == old(self).spec_root().spec_info()@.num_actions,
        ensures
            final(self).well_formed(),
            final(self).spec_chosen() == Some(action),
            final(self).spec_root() == old(self).spec_root(),
            final(self).spec_horizon() == old(self).spec_horizon(),
            final(self).spec_budget() == old(self).spec_budget(),
            final(self).spec_remaining() == old(self).spec_remaining(),
            final(self).spec_trajectory() == old(self).spec_trajectory(),
            old(self).spec_root().spec_info().allows(action),
            match old(self).spec_current() {
                Some(node) => node.candidates(scores@).contains(action) && ((exists|owed: Action|
                    node.spec_info().allows(owed) && node.owes_visit(owed)) ==> node.owes_visit(
                    action,
                )),
                None => true,
            },
    {
        proof {
            assert(self.root.uniform_at(self.trajectory@));
        }
        let action = match self.root.descend(&self.trajectory) {
            Some(node) => node.select_explore_exploit(scores, random),
            None => {
                let fresh = ActionNode::new(self.root.environment_info());
                fresh.select_explore_exploit(scores, random)
            },
        };
        self.chosen = Some(action);
        action
    }

    /// Takes the environment's answer to the chosen action: the step is added
    /// to the future under way. With its last step the future is recorded in
    /// the tree, and the next one starts at the root. Returns whether the step
    /// completed a future.
    pub fn observe(&mut self, percept: Percept) -> (complete: bool)
        requires
            old(self).well_formed(),
            old(self).spec_chosen() is Some,
        ensures
            final(self).well_formed(),
            final(self).spec_chosen() == None::<Action>,
            final(self).spec_horizon() == old(self).spec_horizon(),
            final(self).spec_budget() == old(self).spec_budget(),
            complete == (old(self).spec_trajectory().len() + 1 == old(self).spec_horizon()),
            complete ==> recorded(
                old(self).spec_root(),
                final(self).spec_root(),
                old(self).spec_trajectory().push(
                    Step { action: old(self).spec_chosen()->0, percept },
                ),
            ) && final(self).spec_trajectory() == Seq::<Step>::empty()
                && final(self).spec_remaining() == old(self).spec_remaining() - 1,
            !complete ==> final(self).spec_root() == old(self).spec_root()
                && final(self).spec_trajectory() == old(self).spec_trajectory().push(
                Step { action: old(self).spec_chosen()->0, percept },
            ) && final(self).spec_remaining() == old(self).spec_remaining(),
    {
        let action = match self.chosen {
            Some(action) => action,
            None => {
                return false;
            },
        };
        self.chosen = None;
        self.trajectory.push(Step { action, percept });
        if self.trajectory.len() < self.horizon {
            return false;
        }
        proof {
            assert(self.trajectory@.skip(0) == self.trajectory@);
            assert(self.root.sound_at(Seq::empty()));
            assert(self.root.node_at(Seq::empty()) == Some(self.root));
        }
        let ghost before = self.root;
        self.root.record(&self.trajectory, 0);
        proof {
            let empty = Seq::<Step>::empty();
            assert(self.root.visits_at(empty) == before.visits_at(empty)
                + crate::explorer::monte_carlo_explorer::visits_gained(empty, self.trajectory@));
            assert(self.root.node_at(empty) == Some(self.root));
        }
        self.trajectory.clear();
        self.remaining = self.remaining - 1;
        true
    }

    /// The best action at the root as the recorded futures show it: one with
    /// the highest mean reward among the actions tried. Where several have it,
    /// or none has been tried, `random` decides.
    pub fn best_action<R: Random + ?Sized>(&self, random: &mut R) -> (action: Action)
        requires
            self.well_formed(),
        ensures
            self.spec_root().spec_info().allows(action),
            (exists|tried: Action| self.spec_root().is_tried(tried))
                ==> self.spec_root().is_best_action(action),
    {
        self.root.best_action(random)
    }
}

} // verus!
