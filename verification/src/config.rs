//! Configuration: what a node is told at startup, and the rule that a
//! replication setup has to meet before any traffic is served.

use crate::error::{Error, ErrorKind};
use std::collections::HashMap;
use vstd::prelude::*;

verus! {

/// How strongly replicas are kept in step.
#[derive(Debug, Clone, Copy, PartialEq, Eq, Structural)]
pub enum ConsistencyMode {
    Eventual,
    Strong,
    Causal,
}

/// The consistency settings of a node.
#[derive(Debug)]
pub struct ConsistencyConfig {
    pub mode: ConsistencyMode,
    pub vector_clock_enabled: bool,
}

/// How many replicas hold a key, and how many of them have to answer.
#[derive(Debug, Clone, Copy, PartialEq, Eq, Structural)]
pub struct ReplicationConfig {
    pub factor: usize,
    pub read_quorum: usize,
    pub write_quorum: usize,
}

/// Which storage engine a node runs, and the options handed to it.
#[derive(Debug)]
pub struct StorageConfig {
    pub engine: String,
    pub rocksdb_options: Option<HashMap<String, String>>,
    pub sled_options: Option<HashMap<String, String>>,
}

/// Where a node listens, where it keeps its data and whom it contacts
/// first. Addresses are kept as text.
#[derive(Debug)]
pub struct NodeConfig {
    pub bind_address: String,
    pub data_dir: String,
    pub seed_nodes: Vec<String>,
}

/// Everything a node is configured with.
#[derive(Debug)]
pub struct Config {
    pub node: NodeConfig,
    pub storage: StorageConfig,
    pub replication: ReplicationConfig,
    pub consistency: ConsistencyConfig,
}

/// What changed in a configuration.
#[derive(Debug)]
pub enum ConfigChange {
    Full(Config),
    Node(NodeConfig),
    Storage(StorageConfig),
    Replication(ReplicationConfig),
    Consistency(ConsistencyConfig),
}

/// The storage engines that a node can run.
#[derive(Debug, Clone, Copy, PartialEq, Eq, Structural)]
pub enum EngineKind {
    Memory,
}

impl ReplicationConfig {
    /// Every read quorum meets every write quorum: a read after a write
    /// reaches at least one replica that took the write.
    pub open spec fn quorums_intersect(&self) -> bool {
        self.write_quorum + self.read_quorum > self.factor
    }

    /// Accepts the configuration where its quorums intersect, and rejects
    /// it as invalid where they do not.
    pub fn validate(&self) -> (result: Result<(), Error>)
        ensures
            result is Ok <==> self.quorums_intersect(),
            result matches Err(e) ==> e.kind() == ErrorKind::Configuration,
    {
        let enough = match self.write_quorum.checked_add(self.read_quorum) {
            Some(sum) => sum > self.factor,
            None => true,
        };
        if enough {
            Ok(())
        } else {
            Err(Error::Configuration("the quorums do not exceed the replication factor".to_owned()))
        }
    }
}

impl StorageConfig {
    /// The engine that the configuration names; a storage failure where
    /// the name is not known.
    pub fn engine_kind(&self) -> (result: Result<EngineKind, Error>)
        ensures
            result is Ok <==> self.engine@ == "memory"@,
            result matches Ok(kind) ==> kind == EngineKind::Memory,
            result matches Err(e) ==> e.kind() == ErrorKind::Storage,
    {
        let memory: String = "memory".to_owned();
        if self.engine == memory {
            Ok(EngineKind::Memory)
        } else {
            Err(Error::Storage("unknown storage engine".to_owned()))
        }
    }
}

/// The text that was last seen, as mathematics.
pub open spec fn text_view(text: Option<String>) -> Option<Seq<char>> {
    match text {
        Some(s) => Some(s@),
        None => None,
    }
}

/// Follows a configuration file: remembers where the file is and what it
/// held when it was last looked at.
#[derive(Debug)]
pub struct FileConfigProvider {
    path: String,
    last_content: Option<String>,
}

impl FileConfigProvider {
    /// The path of the file.
    pub closed spec fn path_view(&self) -> Seq<char> {
        self.path@
    }

    /// What the file held when it was last seen to change.
    pub closed spec fn last_seen(&self) -> Option<Seq<char>> {
        text_view(self.last_content)
    }

    /// A provider for the file at `path` that has seen nothing yet.
    pub fn new(path: &str) -> (provider: Self)
        ensures
            provider.path_view() == path@,
            provider.last_seen() is None,
    {
        FileConfigProvider { path: path.to_owned(), last_content: None }
    }

    /// The path of the file.
    pub fn path(&self) -> (path: &str)
        ensures
            path@ == self.path_view(),
    {
        self.path.as_str()
    }

    /// Takes note of what the file holds now; `None` stands for a file
    /// that could not be read. Says whether the content is new, and
    /// remembers it where it is.
    pub fn observe(&mut self, content: Option<String>) -> (changed: bool)
        ensures
            changed == (content is Some && text_view(content) != old(self).last_seen()),
            final(self).path_view() == old(self).path_view(),
            final(self).last_seen() == if changed {
                text_view(content)
            } else {
                old(self).last_seen()
            },
    {
        match content {
            None => false,
            Some(text) => {
                let same = match &self.last_content {
                    Some(last) => *last == text,
                    None => false,
                };
                if same {
                    false
                } else {
                    self.last_content = Some(text);
                    true
                }
            },
        }
    }
}

/// What one look at the file yields: the configuration where the content
/// is new and could be parsed, and a configuration failure otherwise.
pub fn poll_outcome(changed: bool, parsed: Option<Config>) -> (result: Result<ConfigChange, Error>)
    ensures
        match result {
            Ok(change) => changed && parsed is Some && change == ConfigChange::Full(
                parsed->Some_0,
            ),
            Err(e) => e.kind() == ErrorKind::Configuration && !(changed && parsed is Some),
        },
{
    match parsed {
        Some(config) => {
            if changed {
                return Ok(ConfigChange::Full(config));
            }
        },
        None => {},
    }
    Err(Error::Configuration("no change, or the file does not parse".to_owned()))
}

/// Holds a configuration in memory.
#[derive(Debug)]
pub struct InMemoryConfigProvider {
    config: Config,
}

impl InMemoryConfigProvider {
    /// The configuration that is held.
    pub closed spec fn current(&self) -> Config {
        self.config
    }

    /// A provider that holds `config`.
    pub fn new(config: Config) -> (provider: Self)
        ensures
            provider.current() == config,
    {
        InMemoryConfigProvider { config }
    }

    /// Replaces the configuration.
    pub fn set_config(&mut self, new_config: Config)
        ensures
            final(self).current() == new_config,
    {
        self.config = new_config;
    }

    /// The configuration that is held.
    pub fn get_config(&self) -> (config: &Config)
        ensures
            *config == self.current(),
    {
        &self.config
    }
}

} // verus!
