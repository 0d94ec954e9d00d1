//! Strategies that choose an agent's next action.

use crate::environment::EnvironmentInfo;
use crate::types::Action;
use vstd::prelude::*;

pub mod explorer_factory;
pub mod monte_carlo_explorer;
pub mod random_explorer;
pub mod recording;
pub mod search;
pub mod selection;

verus! {

/// A strategy that chooses the next action.
pub trait Explorer {
    /// Chooses one of the environment's actions.
    fn explore(&mut self, environment_info: EnvironmentInfo) -> (action: Action)
        requires
            environment_info@.num_actions > 0,
        ensures
            environment_info.allows(action),
    ;
}

} // verus!
