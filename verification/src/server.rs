//! The state that every connection shares.
use vstd::prelude::*;

use crate::config::Config;
use crate::pubsub::PubSub;
use crate::store::Store;

verus! {

/// The settings, the store and the channel registry, shared by all clients.
pub struct Shared {
    pub config: Config,
    pub store: Store,
    pub pubsub: PubSub,
}

impl Shared {
    /// The shared state is well formed when its channel registry is.
    pub open spec fn wf(&self) -> bool {
        self.pubsub.wf()
    }

    /// Shared state around the given settings and store, with no channels yet.
    pub fn new(config: Config, store: Store) -> (s: Shared)
        ensures
            s.wf(),
            s.store@ == store@,
            s.pubsub@.channels == Map::<Seq<char>, Seq<u64>>::empty(),
            s.pubsub@.next_client_id == 1,
            s.config == config,
    {
        Shared { config, store, pubsub: PubSub::new() }
    }
}

} // verus!
