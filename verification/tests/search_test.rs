use ai::environment::EnvironmentInfo;
use ai::explorer::search::Search;
use ai::random::Random;
use ai::types::{Action, Observation, Percept, SingleReward};

/// A source that always draws the same number, as far as the limit allows.
struct Constant(u64);

impl Random for Constant {
    fn next_modulo(&mut self, limit: u64) -> u64 {
        self.0 % limit
    }
}

fn info_of(num_actions: i16) -> EnvironmentInfo {
    EnvironmentInfo::new(num_actions, SingleReward(0), SingleReward(1))
}

/// Runs a search in which action 1 earns a reward of one and every other
/// action nothing, and every score is the same.
fn run(num_actions: i16, horizon: usize, rollouts: usize, draw: u64) -> (Search, usize) {
    let mut random = Constant(draw);
    let mut search = Search::new(info_of(num_actions), horizon, rollouts);
    let mut steps = 0;
    while !search.is_finished() {
        assert!(!search.awaits_percept());
        let before = search.remaining_horizon();
        let scores = if search.needs_scores() {
            vec![0; num_actions as usize]
        } else {
            Vec::new()
        };
        let action = search.select_action(&scores, &mut random);
        assert!(0 <= action.0 && action.0 < num_actions);
        assert!(search.awaits_percept());
        let reward = if action == Action(1) { 1 } else { 0 };
        let complete = search.observe(Percept(Observation(0), SingleReward(reward)));
        assert_eq!(before == 1, complete);
        steps += 1;
    }
    (search, steps)
}

#[test]
fn a_search_takes_horizon_steps_per_future() {
    let (search, steps) = run(2, 3, 5, 0);
    assert_eq!(15, steps);
    assert_eq!(5, search.root().visits());
    assert!(search.is_finished());
    assert!(!search.awaits_percept());
}

#[test]
fn a_search_without_horizon_is_finished_at_once() {
    let search = Search::new(info_of(2), 0, 9);
    assert!(search.is_finished());
    assert_eq!(0, search.root().visits());
    let action = search.best_action(&mut Constant(1));
    assert_eq!(Action(1), action);
}

#[test]
fn a_search_without_futures_is_finished_at_once() {
    let (search, steps) = run(3, 4, 0, 0);
    assert_eq!(0, steps);
    assert_eq!(Action(2), search.best_action(&mut Constant(2)));
}

#[test]
fn every_action_is_tried_before_scores_count() {
    // With three futures of one step and three actions, each action is
    // tried once, whatever is drawn.
    for draw in 0..4 {
        let (search, _) = run(3, 1, 3, draw);
        for a in 0..3 {
            assert_eq!(1, search.root().child_statistics(Action(a)).0);
        }
    }
}

#[test]
fn the_rewarded_action_is_the_best() {
    for draw in 0..3 {
        let (search, _) = run(3, 2, 12, draw);
        assert_eq!(12, search.root().visits());
        assert_eq!(Action(1), search.best_action(&mut Constant(draw)));
    }
}

#[test]
fn a_search_is_repeatable() {
    let (first, _) = run(3, 3, 10, 1);
    let (second, _) = run(3, 3, 10, 1);
    for a in 0..3 {
        assert_eq!(
            first.root().child_statistics(Action(a)),
            second.root().child_statistics(Action(a))
        );
    }
    assert_eq!(
        first.best_action(&mut Constant(1)),
        second.best_action(&mut Constant(1))
    );
}

#[test]
fn the_search_stands_where_the_future_has_led() {
    let mut random = Constant(0);
    let mut search = Search::new(info_of(2), 2, 2);
    assert_eq!(2, search.remaining_horizon());
    assert!(search.current().is_some());
    assert!(!search.needs_scores());
    let action = search.select_action(&Vec::new(), &mut random);
    assert_eq!(Action(0), action);
    assert!(!search.observe(Percept(Observation(1), SingleReward(1))));
    assert_eq!(1, search.remaining_horizon());
    // No future has been recorded, so the node after the step is not there.
    assert!(search.current().is_none());
    assert!(!search.needs_scores());
    search.select_action(&Vec::new(), &mut random);
    assert!(search.observe(Percept(Observation(0), SingleReward(0))));
    assert_eq!(2, search.remaining_horizon());
    assert_eq!(1, search.root().visits());
    assert_eq!(1, search.root().total_reward());
}
