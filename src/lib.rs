//! Leader tracking and quorum decisions for a multi-Paxos replicated log.
mod ballot;
mod quorum;
mod sequence;

pub use ballot::{Ballot, ConfigurationId, NodeId};
pub use quorum::{FlexibleQuorum, Quorum};
pub use sequence::{LogicalClock, MessageStatus, SequenceNumber};
mod node_map;
pub use node_map::NodeMap;
mod log_types;
pub use log_types::{
    AcceptedMetaData, ClusterConfig, Entry, IndexEntry, LogEntry, LogSync, Promise,
    SnapshotType, SnapshottedEntry, StopSign, TrimmedIndex,
};
mod leader_state;
pub use leader_state::{LeaderState, PromiseMetaData, PromiseState};
mod vec_like;
pub use vec_like::VecLike;
