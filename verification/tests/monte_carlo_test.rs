use ai::environment::EnvironmentInfo;
use ai::explorer::monte_carlo_explorer::{ActionNode, ChanceNode, Step, MIN_VISITS};
use ai::explorer::monte_carlo_explorer::percept_key;
use ai::explorer::selection::{max_score_actions, mean_at_most, pick, pick_random};
use ai::random::Random;
use ai::types::{Action, Observation, Percept, SingleReward};

/// A source that hands out the numbers of a script, over and over.
struct Scripted {
    script: Vec<u64>,
    drawn: usize,
    limits: Vec<u64>,
}

impl Scripted {
    fn new(script: &[u64]) -> Scripted {
        Scripted { script: script.to_vec(), drawn: 0, limits: Vec::new() }
    }
}

impl Random for Scripted {
    fn next_modulo(&mut self, limit: u64) -> u64 {
        let value = self.script[self.drawn % self.script.len()];
        self.drawn += 1;
        self.limits.push(limit);
        value % limit
    }
}

fn info_of(num_actions: i16) -> EnvironmentInfo {
    EnvironmentInfo::new(num_actions, SingleReward(0), SingleReward(10))
}

fn step(action: i16, observation: i16, reward: i16) -> Step {
    Step { action: Action(action), percept: Percept(Observation(observation), SingleReward(reward)) }
}

/// A root at which each of the given single-step futures has been recorded.
fn root_after(num_actions: i16, futures: &[(i16, i16)]) -> ActionNode {
    let mut root = ActionNode::new(info_of(num_actions));
    for &(action, reward) in futures {
        root.record(&vec![step(action, 0, reward)], 0);
    }
    root
}

#[test]
fn fresh_nodes_have_seen_nothing() {
    let node = ActionNode::new(info_of(3));
    assert_eq!(0, node.visits());
    assert_eq!(0, node.total_reward());
    assert_eq!(3, node.environment_info().num_actions());
    assert!(node.requires_visit());
    assert!(node.child(Action(0)).is_none());
    assert!(node.child_requires_visit(Action(2)));
    assert_eq!((0, 0), node.child_statistics(Action(1)));

    let chance = ChanceNode::new(info_of(3));
    assert_eq!(0, chance.visits());
    assert_eq!(0, chance.total_reward());
    assert!(chance.requires_visit());
    assert!(chance.child(Percept(Observation(0), SingleReward(0))).is_none());
    assert_eq!(1, MIN_VISITS);
}

#[test]
fn children_are_made_on_first_access() {
    let mut node = ActionNode::new(info_of(3));
    node.mut_child(Action(1)).record_sample(4);
    assert!(node.child(Action(0)).is_none());
    assert_eq!(1, node.child(Action(1)).unwrap().visits());
    assert_eq!(4, node.child(Action(1)).unwrap().total_reward());
    // A second access finds the same child.
    node.mut_child(Action(1)).record_sample(-1);
    assert_eq!((2, 3), node.child_statistics(Action(1)));

    let percept = Percept(Observation(7), SingleReward(-2));
    let chance = node.mut_child(Action(1));
    chance.mut_child(percept).record_sample(9);
    assert_eq!(9, chance.child(percept).unwrap().total_reward());
    assert!(chance.child(Percept(Observation(7), SingleReward(2))).is_none());
    assert!(chance.child(Percept(Observation(-2), SingleReward(7))).is_none());
}

#[test]
fn percept_keys_differ() {
    let mut keys = Vec::new();
    for observation in [i16::MIN, -1, 0, 1, i16::MAX] {
        for reward in [i16::MIN, -1, 0, 1, i16::MAX] {
            keys.push(percept_key(Percept(Observation(observation), SingleReward(reward))));
        }
    }
    let mut distinct = keys.clone();
    distinct.sort();
    distinct.dedup();
    assert_eq!(keys.len(), distinct.len());
    assert_eq!(3 * 65536 - 5, percept_key(Percept(Observation(3), SingleReward(-5))));
}

#[test]
fn owed_visits_come_before_any_score() {
    // Actions 0 and 2 have been tried; action 1 has not, and its score is
    // the lowest by far.
    let root = root_after(3, &[(0, 10), (2, 10), (0, 10)]);
    let scores = vec![u64::MAX, 0, u64::MAX - 1];
    assert_eq!(vec![Action(1)], root.require_visit());
    assert_eq!(vec![Action(1)], root.candidate_actions(&scores));
    for draw in 0..5 {
        let mut random = Scripted::new(&[draw]);
        assert_eq!(Action(1), root.select_explore_exploit(&scores, &mut random));
        assert_eq!(vec![1], random.limits);
    }
    // While a visit is owed the scores are not looked at.
    let mut random = Scripted::new(&[0]);
    assert_eq!(Action(1), root.select_explore_exploit(&Vec::new(), &mut random));
}

#[test]
fn several_owed_visits_are_drawn_among() {
    let root = root_after(4, &[(2, 1)]);
    assert_eq!(vec![Action(0), Action(1), Action(3)], root.require_visit());
    let picks: Vec<Action> = (0..3)
        .map(|draw| root.select_explore_exploit(&Vec::new(), &mut Scripted::new(&[draw])))
        .collect();
    assert_eq!(vec![Action(0), Action(1), Action(3)], picks);
}

#[test]
fn highest_score_wins_once_all_are_visited() {
    let root = root_after(3, &[(0, 1), (1, 1), (2, 1)]);
    assert!(root.require_visit().is_empty());
    let mut random = Scripted::new(&[0]);
    assert_eq!(Action(1), root.select_explore_exploit(&vec![5, 9, 7], &mut random));
    assert_eq!(vec![1], random.limits);
    assert_eq!(Action(0), root.select_explore_exploit(&vec![9, 5, 7], &mut random));
    assert_eq!(Action(2), root.select_explore_exploit(&vec![0, 0, 1], &mut random));
}

#[test]
fn equal_scores_are_drawn_among() {
    let root = root_after(4, &[(0, 1), (1, 1), (2, 1), (3, 1)]);
    let scores = vec![8, 3, 8, 8];
    assert_eq!(vec![Action(0), Action(2), Action(3)], root.candidate_actions(&scores));
    let picks: Vec<Action> = (0..4)
        .map(|draw| root.select_explore_exploit(&scores, &mut Scripted::new(&[draw])))
        .collect();
    assert_eq!(vec![Action(0), Action(2), Action(3), Action(0)], picks);
}

#[test]
fn same_state_and_same_draws_give_the_same_action() {
    let futures = [(0, 3), (1, 5), (2, 5), (1, 0)];
    let scores = vec![7, 7, 7];
    let first = root_after(3, &futures);
    let second = root_after(3, &futures);
    let mut first_random = Scripted::new(&[4, 1, 2, 9]);
    let mut second_random = Scripted::new(&[4, 1, 2, 9]);
    for _ in 0..8 {
        assert_eq!(
            first.select_explore_exploit(&scores, &mut first_random),
            second.select_explore_exploit(&scores, &mut second_random)
        );
        assert_eq!(
            first.best_action(&mut first_random),
            second.best_action(&mut second_random)
        );
    }
}

#[test]
fn max_score_actions_are_ascending() {
    assert_eq!(vec![Action(0)], max_score_actions(&vec![4], 1));
    assert_eq!(vec![Action(1), Action(3)], max_score_actions(&vec![1, 6, 2, 6, 0], 5));
    // Scores beyond the number of actions do not count.
    assert_eq!(vec![Action(1)], max_score_actions(&vec![1, 6, 2, 6, 9], 3));
    assert_eq!(vec![Action(0), Action(1)], max_score_actions(&vec![0, 0], 2));
}

#[test]
fn pick_takes_the_place_drawn() {
    let set = vec![Action(2), Action(5), Action(9)];
    assert_eq!(Action(2), pick(&set, 0));
    assert_eq!(Action(9), pick(&set, 2));
    let mut random = Scripted::new(&[7]);
    assert_eq!(Action(5), pick_random(&set, &mut random));
    assert_eq!(vec![3], random.limits);
}

#[test]
fn record_counts_every_node_on_the_way() {
    let mut root = ActionNode::new(info_of(2));
    let future = vec![step(1, 0, 3), step(0, 1, 4), step(1, 1, 5)];
    assert_eq!(12, root.record(&future, 0));

    assert_eq!((1, 12), (root.visits(), root.total_reward()));
    assert_eq!((1, 12), root.child_statistics(Action(1)));
    assert_eq!((0, 0), root.child_statistics(Action(0)));

    let second = root.descend(&vec![future[0]]).unwrap();
    assert_eq!((1, 9), (second.visits(), second.total_reward()));
    assert_eq!((1, 9), second.child_statistics(Action(0)));

    let third = root.descend(&vec![future[0], future[1]]).unwrap();
    assert_eq!((1, 5), (third.visits(), third.total_reward()));
    assert_eq!((1, 5), third.child_statistics(Action(1)));

    // The node after the last step has been made and not been visited.
    let last = root.descend(&future).unwrap();
    assert_eq!((0, 0), (last.visits(), last.total_reward()));

    // Nothing has been made off the way.
    assert!(root.descend(&vec![step(0, 0, 3)]).is_none());
    assert!(root.descend(&vec![step(1, 0, 2)]).is_none());
    assert!(root.descend(&vec![future[0], step(0, 0, 4)]).is_none());
}

#[test]
fn record_adds_up_over_futures() {
    let mut root = ActionNode::new(info_of(2));
    root.record(&vec![step(1, 0, 3), step(0, 1, 4)], 0);
    root.record(&vec![step(1, 0, 3), step(1, 1, -2)], 0);
    root.record(&vec![step(0, 0, 10), step(0, 0, 10)], 0);
    root.record(&vec![step(1, 1, 1), step(0, 0, 0)], 0);

    assert_eq!((4, 29), (root.visits(), root.total_reward()));
    assert_eq!((3, 9), root.child_statistics(Action(1)));
    assert_eq!((1, 20), root.child_statistics(Action(0)));

    let after = root.descend(&vec![step(1, 0, 3)]).unwrap();
    assert_eq!((2, 2), (after.visits(), after.total_reward()));
    assert_eq!((1, 4), after.child_statistics(Action(0)));
    assert_eq!((1, -2), after.child_statistics(Action(1)));

    let chance = root.child(Action(1)).unwrap();
    assert_eq!(3, chance.visits());
    let other = chance.child(Percept(Observation(1), SingleReward(1))).unwrap();
    assert_eq!((1, 0), (other.visits(), other.total_reward()));
}

#[test]
fn record_from_a_later_step() {
    let mut node = ActionNode::new(info_of(2));
    let future = vec![step(1, 0, 3), step(0, 1, 4), step(1, 1, 5)];
    assert_eq!(9, node.record(&future, 1));
    assert_eq!((1, 9), node.child_statistics(Action(0)));
    assert_eq!(0, node.record(&future, 3));
    assert_eq!((1, 9), (node.visits(), node.total_reward()));
    assert_eq!(0, ActionNode::new(info_of(2)).record(&Vec::new(), 0));
}

#[test]
fn descend_with_no_steps_is_the_node() {
    let root = root_after(2, &[(1, 4)]);
    let same = root.descend(&Vec::new()).unwrap();
    assert_eq!((1, 4), (same.visits(), same.total_reward()));
}

#[test]
fn best_action_has_the_highest_mean() {
    // Means: action 0 has 10/4, action 1 has 8/3, action 2 has 2/1.
    let root = root_after(
        3,
        &[(0, 4), (0, 2), (0, 2), (0, 2), (1, 3), (1, 3), (1, 2), (2, 2)],
    );
    assert_eq!(Action(1), root.best_action(&mut Scripted::new(&[0])));
    assert_eq!(Action(1), root.best_action(&mut Scripted::new(&[5])));
}

#[test]
fn best_action_leaves_untried_actions_out() {
    let root = root_after(3, &[(1, 0), (1, 0)]);
    assert_eq!(Action(1), root.best_action(&mut Scripted::new(&[2])));
}

#[test]
fn best_action_draws_among_equal_means() {
    // 6/3 and 4/2 are the same mean; 1/1 is lower.
    let root = root_after(3, &[(0, 1), (1, 2), (1, 2), (1, 2), (2, 3), (2, 1)]);
    assert_eq!(Action(1), root.best_action(&mut Scripted::new(&[0])));
    assert_eq!(Action(2), root.best_action(&mut Scripted::new(&[1])));
}

#[test]
fn best_action_of_an_untried_node_is_any_action() {
    let root = ActionNode::new(info_of(4));
    for draw in 0..4 {
        assert_eq!(Action(draw as i16), root.best_action(&mut Scripted::new(&[draw])));
    }
}

#[test]
fn means_are_compared_as_fractions() {
    assert!(mean_at_most(2, 3, 3, 4)); // 2/3 <= 3/4
    assert!(!mean_at_most(3, 4, 2, 3));
    assert!(mean_at_most(1, 2, 2, 4)); // equal
    assert!(mean_at_most(-1, 2, -1, 3)); // -1/2 <= -1/3
    assert!(!mean_at_most(-1, 3, -1, 2));
    assert!(mean_at_most(i64::MIN, usize::MAX, i64::MAX, usize::MAX));
    assert!(!mean_at_most(i64::MAX, 1, i64::MAX, usize::MAX));
}
