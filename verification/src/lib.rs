//! Building blocks for a replicated key-value store: a weighted
//! consistent-hash placement ring, a versioned consistency manager and the
//! quorum rules that tie them together, with the collaborators they need:
//! a storage backend, a membership registry and a message broker.

pub mod api;
pub mod bytestring;
pub mod config;
pub mod consistency;
pub mod coordinator;
pub mod distribution;
pub mod error;
pub mod membership;
pub mod messaging;
pub mod quorum;
pub mod record;
pub mod storage;
pub mod utils;

use crate::config::{Config, EngineKind};
use crate::consistency::InMemoryConsistency;
use crate::error::{Error, ErrorKind};
use crate::membership::InMemoryMembership;
use crate::messaging::InMemoryBroker;
use crate::storage::{no_entries, InMemoryEngine, StorageEngine};
use vstd::prelude::*;

verus! {

/// One node's parts, put together from its configuration.
pub struct Coretex {
    pub config: Config,
    pub storage: InMemoryEngine,
    pub membership: InMemoryMembership,
    pub messaging: InMemoryBroker,
    pub consistency: InMemoryConsistency<InMemoryEngine>,
}

impl Coretex {
    /// Puts a node together. A configuration whose quorums do not
    /// intersect is rejected before anything is built; after that, a
    /// storage engine that is not known is a storage failure.
    pub fn assemble(config: Config) -> (result: Result<Coretex, Error>)
        ensures
            result is Ok <==> config.replication.quorums_intersect() && config.storage.engine@
                == "memory"@,
            result matches Err(e) ==> e.kind() == if !config.replication.quorums_intersect() {
                ErrorKind::Configuration
            } else {
                ErrorKind::Storage
            },
            result matches Ok(node) ==> node.config == config && node.storage.contents()
                == no_entries() && node.consistency@.backend == no_entries()
                && node.consistency@.events.len() == 0 && node.membership.wf()
                && node.membership@.members.len() == 0 && node.messaging.wf()
                && node.messaging@.id == config.node.bind_address@,
    {
        match config.replication.validate() {
            Err(e) => {
                return Err(e);
            },
            Ok(()) => {},
        }
        match config.storage.engine_kind() {
            Err(e) => Err(e),
            Ok(EngineKind::Memory) => {
                let storage = InMemoryEngine::new("memory");
                let consistency = InMemoryConsistency::new(InMemoryEngine::new("consistency"));
                let membership = InMemoryMembership::new();
                let messaging = InMemoryBroker::new(config.node.bind_address.as_str());
                Ok(Coretex { config, storage, membership, messaging, consistency })
            },
        }
    }
}

} // verus!
