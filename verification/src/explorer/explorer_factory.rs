//! Where an agent gets its exploring strategies from.

use crate::explorer::random_explorer::RandomExplorer;
use crate::explorer::Explorer;
use crate::random::RandomImpl;
use vstd::prelude::*;

verus! {

/// The seed of the random source that a random strategy draws from.
pub const RANDOM_EXPLORER_SEED: usize = 235669;

/// The standard source of exploring strategies.
pub struct ExplorerFactoryImpl;

impl ExplorerFactoryImpl {
    /// The standard source of exploring strategies.
    pub fn new() -> (factory: ExplorerFactoryImpl)
        ensures
            factory == ExplorerFactoryImpl,
    {
        ExplorerFactoryImpl
    }

    /// A strategy that chooses at random, with a random source of its own.
    pub fn create_random_explorer(&self) -> Box<dyn Explorer> {
        Box::new(RandomExplorer::new(Box::new(RandomImpl::create(RANDOM_EXPLORER_SEED))))
    }
}

} // verus!
