//! What an agent knows of an environment before it acts, the interface of an
//! environment, and a coin-guessing environment.

use crate::random::Random;
use crate::types::{Action, Observation, SingleReward};
use vstd::prelude::*;

verus! {

/// What an agent knows of an environment before it acts: how many actions
/// there are, and the least and the greatest reward of a single step.
#[derive(Copy, Clone, Debug)]
pub struct EnvironmentInfo {
    num_actions: i16,
    min_reward: SingleReward,
    max_reward: SingleReward,
}

/// The contents of an [`EnvironmentInfo`].
pub struct EnvironmentInfoView {
    pub num_actions: i16,
    pub min_reward: SingleReward,
    pub max_reward: SingleReward,
}

impl View for EnvironmentInfo {
    type V = EnvironmentInfoView;

    closed spec fn view(&self) -> EnvironmentInfoView {
        EnvironmentInfoView {
            num_actions: self.num_actions,
            min_reward: self.min_reward,
            max_reward: self.max_reward,
        }
    }
}

impl EnvironmentInfo {
    pub fn new(num_actions: i16, min_reward: SingleReward, max_reward: SingleReward) -> (info:
        EnvironmentInfo)
        ensures
            info@.num_actions == num_actions,
            info@.min_reward == min_reward,
            info@.max_reward == max_reward,
    {
        EnvironmentInfo { num_actions, min_reward, max_reward }
    }

    /// The number of actions; the actions are the numbers below it.
    pub fn num_actions(&self) -> (count: i16)
        ensures
            count == self@.num_actions,
    {
        self.num_actions
    }

    /// The least reward of a single step.
    pub fn min_reward(&self) -> (reward: SingleReward)
        ensures
            reward == self@.min_reward,
    {
        self.min_reward
    }

    /// The greatest reward of a single step.
    pub fn max_reward(&self) -> (reward: SingleReward)
        ensures
            reward == self@.max_reward,
    {
        self.max_reward
    }

    /// Whether `action` is one of this environment's actions.
    pub open spec fn allows(&self, action: Action) -> bool {
        0 <= action.0 < self@.num_actions
    }

    /// The width of the band that a single reward lies in: the greatest
    /// reward less the least.
    pub open spec fn spec_reward_range(&self) -> int {
        self@.max_reward.0 - self@.min_reward.0
    }

    /// The width of the band that a single reward lies in. The rewards
    /// themselves may be too narrow a type for it.
    pub fn reward_range(&self) -> (range: i32)
        ensures
            range == self.spec_reward_range(),
    {
        let high: i32 = self.max_reward.0 as i32;
        let low: i32 = self.min_reward.0 as i32;
        high - low
    }
}

/// An environment that an agent can act in and learn from.
pub trait Environment {
    /// What the environment tells of itself; it does not change.
    spec fn spec_info(&self) -> EnvironmentInfo;

    /// Whether an action has been taken, so that there is a reward.
    spec fn has_percept(&self) -> bool;

    /// Basic information about the environment.
    fn info(&self) -> (info: EnvironmentInfo)
        ensures
            info == self.spec_info(),
    ;

    /// The reward for the latest action.
    fn reward(&self) -> (reward: SingleReward)
        requires
            self.has_percept(),
        ensures
            self.spec_info()@.min_reward.0 <= reward.0 <= self.spec_info()@.max_reward.0,
    ;

    /// What the environment shows after the latest action.
    fn observation(&self) -> Observation;

    /// Takes `action` and works out the next observation and reward.
    fn update(&mut self, action: Action)
        requires
            old(self).spec_info().allows(action),
        ensures
            final(self).has_percept(),
            final(self).spec_info() == old(self).spec_info(),
    ;
}

/// How a tossed coin can land.
#[derive(Copy, Clone, Debug, PartialEq, Eq, Structural)]
pub enum CoinToss {
    Heads,
    Tails,
}

impl CoinToss {
    /// The side that a draw of zero or one stands for: zero is heads.
    pub open spec fn spec_from_draw(draw: u64) -> CoinToss {
        if draw == 0 {
            CoinToss::Heads
        } else {
            CoinToss::Tails
        }
    }

    /// The side that guessing `action` bets on: action zero is heads.
    pub open spec fn spec_from_action(action: Action) -> CoinToss {
        if action.0 == 0 {
            CoinToss::Heads
        } else {
            CoinToss::Tails
        }
    }

    /// The side that a draw of zero or one stands for.
    pub fn from_draw(draw: u64) -> (toss: CoinToss)
        requires
            draw < 2,
        ensures
            toss == CoinToss::spec_from_draw(draw),
    {
        if draw == 0 {
            CoinToss::Heads
        } else {
            CoinToss::Tails
        }
    }

    /// The observation that shows this side.
    pub open spec fn spec_observation(self) -> Observation {
        match self {
            CoinToss::Heads => Observation(0),
            CoinToss::Tails => Observation(1),
        }
    }
}

/// An environment whose observations are the tosses of a coin. An action
/// guesses the next toss, and a right guess is rewarded.
pub struct CoinFlip<'a, R: Random> {
    last_toss: CoinToss,
    last_guess: Option<CoinToss>,
    random: &'a mut R,
}

impl<'a, R: Random> CoinFlip<'a, R> {
    /// The latest toss.
    pub closed spec fn last_toss(&self) -> CoinToss {
        self.last_toss
    }

    /// The latest guess, if any was made.
    pub closed spec fn last_guess(&self) -> Option<CoinToss> {
        self.last_guess
    }

    /// The reward that the latest guess has earned.
    pub open spec fn spec_reward(&self) -> SingleReward {
        if self.last_guess() == Some(self.last_toss()) {
            SingleReward(1)
        } else {
            SingleReward(0)
        }
    }

    /// A coin that shows tails and has not been guessed at, tossed with
    /// `random`.
    pub fn new(random: &'a mut R) -> (coin_flip: CoinFlip<'a, R>)
        ensures
            coin_flip.last_toss() == CoinToss::Tails,
            coin_flip.last_guess() == None::<CoinToss>,
    {
        CoinFlip { last_toss: CoinToss::Tails, last_guess: None, random }
    }
}

impl<'a, R: Random> Environment for CoinFlip<'a, R> {
    open spec fn spec_info(&self) -> EnvironmentInfo {
        coin_flip_info()
    }

    open spec fn has_percept(&self) -> bool {
        self.last_guess() is Some
    }

    fn info(&self) -> (info: EnvironmentInfo)
        ensures
            info@.num_actions == 2,
            info@.min_reward == SingleReward(0),
            info@.max_reward == SingleReward(1),
    {
        EnvironmentInfo::new(2, SingleReward(0), SingleReward(1))
    }

    fn reward(&self) -> (reward: SingleReward)
        ensures
            reward == self.spec_reward(),
    {
        let guess = self.last_guess.unwrap();
        if guess == self.last_toss {
            SingleReward(1)
        } else {
            SingleReward(0)
        }
    }

    fn observation(&self) -> (observation: Observation)
        ensures
            observation == self.last_toss().spec_observation(),
    {
        match self.last_toss {
            CoinToss::Heads => Observation(0),
            CoinToss::Tails => Observation(1),
        }
    }

    fn update(&mut self, action: Action)
        ensures
            final(self).last_guess() == Some(CoinToss::spec_from_action(action)),
    {
        let Action(guess) = action;
        self.last_guess = if guess == 0 {
            Some(CoinToss::Heads)
        } else {
            Some(CoinToss::Tails)
        };
        let draw = self.random.next_modulo(2);
        self.last_toss = CoinToss::from_draw(draw);
    }
}

/// What every coin-guessing environment tells of itself: two actions, and a
/// reward of zero or one.
pub closed spec fn coin_flip_info() -> EnvironmentInfo {
    EnvironmentInfo { num_actions: 2, min_reward: SingleReward(0), max_reward: SingleReward(1) }
}

} // verus!
