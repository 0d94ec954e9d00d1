use ai::environment::EnvironmentInfo;
use ai::explorer::explorer_factory::ExplorerFactoryImpl;
use ai::explorer::random_explorer::{action_of_draw, RandomExplorer};
use ai::explorer::Explorer;
use ai::random::{Random, RandomImpl};
use ai::types::{Action, SingleReward};

struct Counting(u64);

impl Random for Counting {
    fn next_modulo(&mut self, limit: u64) -> u64 {
        self.0 += 1;
        (self.0 - 1) % limit
    }
}

fn info_of(num_actions: i16) -> EnvironmentInfo {
    EnvironmentInfo::new(num_actions, SingleReward(-3), SingleReward(7))
}

#[test]
fn random_explorer_returns_what_is_drawn() {
    let mut explorer = RandomExplorer::new(Box::new(Counting(0)));
    let actions: Vec<Action> = (0..5).map(|_| explorer.explore(info_of(3))).collect();
    assert_eq!(vec![Action(0), Action(1), Action(2), Action(0), Action(1)], actions);
}

#[test]
fn random_explorer_stays_within_the_actions() {
    let mut explorer = RandomExplorer::new(Box::new(RandomImpl::create(17)));
    for _ in 0..200 {
        let Action(a) = explorer.explore(info_of(10));
        assert!(0 <= a && a < 10);
    }
    for _ in 0..20 {
        assert_eq!(Action(0), explorer.explore(info_of(1)));
    }
    let Action(a) = explorer.explore(info_of(i16::MAX));
    assert!(0 <= a);
}

#[test]
fn factory_makes_an_explorer() {
    let factory = ExplorerFactoryImpl::new();
    let mut explorer = factory.create_random_explorer();
    for _ in 0..50 {
        let Action(a) = explorer.explore(info_of(4));
        assert!(0 <= a && a < 4);
    }
}

#[test]
fn factory_explorers_are_repeatable() {
    let mut first = ExplorerFactoryImpl::new().create_random_explorer();
    let mut second = ExplorerFactoryImpl::new().create_random_explorer();
    for _ in 0..50 {
        assert_eq!(first.explore(info_of(7)), second.explore(info_of(7)));
    }
}

#[test]
fn draws_stand_for_actions() {
    assert_eq!(Action(0), action_of_draw(0, 1));
    assert_eq!(Action(6), action_of_draw(6, 7));
    assert_eq!(Action(32766), action_of_draw(32766, i16::MAX));
}
