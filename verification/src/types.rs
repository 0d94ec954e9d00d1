//! The small value types that an agent and an environment exchange.

use vstd::prelude::*;
use vstd::std_specs::ops::SubSpecImpl;

verus! {

/// A single reward, as an environment hands it out after one action.
#[derive(Copy, Clone, Debug, PartialEq, Eq, Hash, Structural)]
pub struct SingleReward(pub i16);

/// What an environment shows after one action.
#[derive(Copy, Clone, Debug, PartialEq, Eq, Hash, Structural)]
pub struct Observation(pub i16);

/// An observation together with the reward that came with it.
#[derive(Copy, Clone, Debug, PartialEq, Eq, Hash, Structural)]
pub struct Percept(pub Observation, pub SingleReward);

/// What an agent can do in one step: a number below the environment's
/// number of actions.
#[derive(Copy, Clone, Debug, PartialEq, Eq, Hash, PartialOrd, Ord, Structural)]
pub struct Action(pub i16);

impl core::ops::Sub for SingleReward {
    type Output = SingleReward;

    /// The difference of two rewards, where it is a reward again.
    fn sub(self, rhs: SingleReward) -> (difference: SingleReward) {
        SingleReward(self.0 - rhs.0)
    }
}

impl SubSpecImpl for SingleReward {
    open spec fn obeys_sub_spec() -> bool {
        true
    }

    open spec fn sub_req(self, rhs: SingleReward) -> bool {
        i16::MIN <= self.0 - rhs.0 <= i16::MAX
    }

    open spec fn sub_spec(self, rhs: SingleReward) -> SingleReward {
        SingleReward((self.0 - rhs.0) as i16)
    }
}

} // verus!
