//! The fallback strategy: any action, chosen at random.

use crate::environment::EnvironmentInfo;
use crate::explorer::Explorer;
use crate::random::Random;
use crate::types::Action;
use vstd::prelude::*;

verus! {

/// A strategy that learns nothing and chooses every action with the same
/// chance.
pub struct RandomExplorer {
    random: Box<dyn Random>,
}

impl RandomExplorer {
    /// A strategy that draws its choices from `random`.
    pub fn new(random: Box<dyn Random>) -> (explorer: RandomExplorer) {
        RandomExplorer { random }
    }
}

/// The action that a draw below the number of actions stands for.
pub fn action_of_draw(draw: u64, num_actions: i16) -> (action: Action)
    requires
        draw < num_actions,
    ensures
        action.0 == draw,
{
    Action(draw as i16)
}

impl Explorer for RandomExplorer {
    fn explore(&mut self, environment_info: EnvironmentInfo) -> (action: Action) {
        let num_actions = environment_info.num_actions();
        let draw = self.random.next_modulo(num_actions as u64);
        action_of_draw(draw, num_actions)
    }
}

} // verus!
