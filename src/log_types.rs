use vstd::prelude::*;
use crate::ballot::{Ballot, ConfigurationId, NodeId};
use crate::quorum::FlexibleQuorum;
use vstd::std_specs::cmp::PartialEqSpec;

verus! {

/// The index up to which the log has been trimmed.
pub type TrimmedIndex = usize;

/// A type of log entry, together with the type of snapshot that can replace a prefix of
/// such entries.
pub trait Entry: Clone + core::fmt::Debug + Sized {
    /// The snapshot type of this entry type.
    type Snapshot: Clone + core::fmt::Debug;
}

/// A snapshot of a log prefix: either the whole state or the change since the last one.
#[derive(Clone, Debug)]
pub enum SnapshotType<T: Entry> {
    /// A snapshot of the whole state.
    Complete(T::Snapshot),
    /// A snapshot of the changes since the last snapshot.
    Delta(T::Snapshot),
}

/// The configuration of a cluster.
#[derive(Clone, Debug)]
pub struct ClusterConfig {
    /// The id of this configuration.
    pub configuration_id: ConfigurationId,
    /// The nodes of the cluster.
    pub nodes: Vec<NodeId>,
    /// The flexible quorum of the cluster, if any.
    pub flexible_quorum: Option<FlexibleQuorum>,
}

/// A terminal marker in the log: the current configuration is replaced by `next_config`.
#[derive(Clone, Debug)]
pub struct StopSign {
    /// The configuration that follows.
    pub next_config: ClusterConfig,
    /// Data attached to the reconfiguration.
    pub metadata: Option<Vec<u8>>,
}

/// Struct used to help another server synchronize their log with the current state of our
/// own log.
#[derive(Clone, Debug)]
pub struct LogSync<T: Entry> {
    /// The decided snapshot.
    pub decided_snapshot: Option<SnapshotType<T>>,
    /// The log suffix.
    pub suffix: Vec<T>,
    /// The index of the log where the entries from `suffix` should be applied at (also the
    /// compacted idx of `decided_snapshot` if it exists).
    pub sync_idx: usize,
    /// The accepted StopSign.
    pub stopsign: Option<StopSign>,
}

/// A peer's answer to a prepare request.
#[derive(Clone, Debug)]
pub struct Promise<T: Entry> {
    /// The ballot that is promised.
    pub n: Ballot,
    /// The ballot in which the peer last accepted entries.
    pub n_accepted: Ballot,
    /// The peer's decided index.
    pub decided_idx: usize,
    /// The peer's accepted index.
    pub accepted_idx: usize,
    /// The log suffix the peer holds beyond what the leader has.
    pub log_sync: Option<LogSync<T>>,
}

/// The entry read in the log.
#[derive(Clone, Debug)]
pub enum LogEntry<T: Entry> {
    /// The entry is decided.
    Decided(T),
    /// The entry is NOT decided. Might be removed from the log at a later time.
    Undecided(T),
    /// The entry has been trimmed.
    Trimmed(TrimmedIndex),
    /// The entry has been snapshotted.
    Snapshotted(SnapshottedEntry<T>),
    /// This instance has been stopped for reconfiguration. The accompanying bool indicates
    /// whether the reconfiguration has been decided or not.
    StopSign(StopSign, bool),
}

/// Convenience type for checking if a certain index exists, is compacted or is a StopSign.
#[derive(Clone, Debug)]
pub enum IndexEntry {
    Entry,
    Compacted,
    StopSign(StopSign),
}

/// A log position that has been replaced by a snapshot.
#[derive(Clone, Debug)]
pub struct SnapshottedEntry<T: Entry> {
    pub trimmed_idx: TrimmedIndex,
    pub snapshot: T::Snapshot,
}

impl<T: Entry> SnapshottedEntry<T> {
    pub fn with(trimmed_idx: usize, snapshot: T::Snapshot) -> (r: Self)
        ensures
            r.trimmed_idx == trimmed_idx,
            r.snapshot == snapshot,
    {
        SnapshottedEntry { trimmed_idx, snapshot }
    }
}

/// The entries flushed due to an append operation.
pub struct AcceptedMetaData<T: Entry> {
    pub accepted_idx: usize,
    pub entries: Vec<T>,
}

impl PartialEq for ClusterConfig {
    fn eq(&self, other: &ClusterConfig) -> (r: bool) {
        let same_quorum = match (&self.flexible_quorum, &other.flexible_quorum) {
            (Some(a), Some(b)) => a.read_quorum_size == b.read_quorum_size && a.write_quorum_size
                == b.write_quorum_size,
            (None, None) => true,
            _ => false,
        };
        let same_nodes = self.nodes == other.nodes;
        proof {
            if same_nodes {
                assert(self.nodes@ =~= other.nodes@);
            }
        }
        self.configuration_id == other.configuration_id && same_nodes && same_quorum
    }
}

impl vstd::std_specs::cmp::PartialEqSpecImpl for ClusterConfig {
    open spec fn obeys_eq_spec() -> bool {
        true
    }

    open spec fn eq_spec(&self, other: &ClusterConfig) -> bool {
        &&& self.configuration_id == other.configuration_id
        &&& self.nodes@ == other.nodes@
        &&& self.flexible_quorum == other.flexible_quorum
    }
}

impl PartialEq for StopSign {
    fn eq(&self, other: &StopSign) -> (r: bool) {
        let same_metadata = match (&self.metadata, &other.metadata) {
            (Some(a), Some(b)) => {
                let same = *a == *b;
                proof {
                    if same {
                        assert(a@ =~= b@);
                    }
                }
                same
            },
            (None, None) => true,
            _ => false,
        };
        let same_config = self.next_config == other.next_config;
        proof {
            if self.next_config.nodes.eq_spec(&other.next_config.nodes) {
                assert(self.next_config.nodes@ =~= other.next_config.nodes@);
            }
        }
        same_config && same_metadata
    }
}

impl vstd::std_specs::cmp::PartialEqSpecImpl for StopSign {
    open spec fn obeys_eq_spec() -> bool {
        true
    }

    open spec fn eq_spec(&self, other: &StopSign) -> bool {
        &&& <ClusterConfig as PartialEqSpec>::eq_spec(&self.next_config, &other.next_config)
        &&& match (self.metadata, other.metadata) {
            (Some(a), Some(b)) => a@ == b@,
            (None, None) => true,
            _ => false,
        }
    }
}

impl<T: Entry> PartialEq for SnapshottedEntry<T> where T::Snapshot: PartialEq {
    fn eq(&self, other: &Self) -> (r: bool) {
        self.trimmed_idx == other.trimmed_idx && self.snapshot == other.snapshot
    }
}

impl<T: Entry> vstd::std_specs::cmp::PartialEqSpecImpl for SnapshottedEntry<T> where T::Snapshot: PartialEq {
    open spec fn obeys_eq_spec() -> bool {
        <T::Snapshot as PartialEqSpec>::obeys_eq_spec()
    }

    open spec fn eq_spec(&self, other: &Self) -> bool {
        self.trimmed_idx == other.trimmed_idx && self.snapshot.eq_spec(&other.snapshot)
    }
}

impl<T: Entry + PartialEq> PartialEq for LogEntry<T> where T::Snapshot: PartialEq {
    fn eq(&self, other: &Self) -> (r: bool) {
        match (self, other) {
            (LogEntry::Decided(v1), LogEntry::Decided(v2)) => v1 == v2,
            (LogEntry::Undecided(v1), LogEntry::Undecided(v2)) => v1 == v2,
            (LogEntry::Trimmed(idx1), LogEntry::Trimmed(idx2)) => idx1 == idx2,
            (LogEntry::Snapshotted(s1), LogEntry::Snapshotted(s2)) => s1 == s2,
            (LogEntry::StopSign(ss1, b1), LogEntry::StopSign(ss2, b2)) => ss1 == ss2 && b1 == b2,
            _ => false,
        }
    }
}

impl<T: Entry + PartialEq> vstd::std_specs::cmp::PartialEqSpecImpl for LogEntry<T> where T::Snapshot: PartialEq {
    open spec fn obeys_eq_spec() -> bool {
        T::obeys_eq_spec() && <T::Snapshot as PartialEqSpec>::obeys_eq_spec()
    }

    open spec fn eq_spec(&self, other: &Self) -> bool {
        match (self, other) {
            (LogEntry::Decided(v1), LogEntry::Decided(v2)) => v1.eq_spec(v2),
            (LogEntry::Undecided(v1), LogEntry::Undecided(v2)) => v1.eq_spec(v2),
            (LogEntry::Trimmed(idx1), LogEntry::Trimmed(idx2)) => idx1 == idx2,
            (LogEntry::Snapshotted(s1), LogEntry::Snapshotted(s2)) => <SnapshottedEntry<T> as PartialEqSpec>::eq_spec(s1, s2),
            (LogEntry::StopSign(ss1, b1), LogEntry::StopSign(ss2, b2)) => <StopSign as PartialEqSpec>::eq_spec(ss1, ss2)
                && b1 == b2,
            _ => false,
        }
    }
}

} // verus!
