use vstd::prelude::*;

verus! {

/// ID for a node of the cluster.
pub type NodeId = u64;

/// ID for a configuration (i.e., the set of servers in a cluster).
pub type ConfigurationId = u32;

/// A totally ordered proposal identifier: compared by configuration, then round, then
/// priority, and finally by the id of the proposing node, which breaks ties.
#[derive(Copy, Clone, Debug, Default, PartialEq, Eq, Structural, PartialOrd, Ord, Hash)]
pub struct Ballot {
    /// The configuration the ballot belongs to.
    pub config_id: ConfigurationId,
    /// The round number.
    pub n: u32,
    /// A custom priority used to favour some nodes.
    pub priority: u32,
    /// The node that proposed the ballot.
    pub pid: NodeId,
}

impl Ballot {
    pub fn with(config_id: ConfigurationId, n: u32, priority: u32, pid: NodeId) -> (r: Ballot)
        ensures
            r == (Ballot { config_id, n, priority, pid }),
    {
        Ballot { config_id, n, priority, pid }
    }

    /// The ballot `(0, 0, 0, 0)`, below every other ballot.
    pub fn zero() -> (r: Ballot)
        ensures
            r == (Ballot { config_id: 0, n: 0, priority: 0, pid: 0 }),
    {
        Ballot { config_id: 0, n: 0, priority: 0, pid: 0 }
    }

    /// Lexicographic order on `(config_id, n, priority, pid)`.
    pub open spec fn spec_gt(self, other: Ballot) -> bool {
        if self.config_id != other.config_id {
            self.config_id > other.config_id
        } else if self.n != other.n {
            self.n > other.n
        } else if self.priority != other.priority {
            self.priority > other.priority
        } else {
            self.pid > other.pid
        }
    }

    /// Whether `self` is a strictly greater ballot than `other`.
    pub fn gt(&self, other: &Ballot) -> (r: bool)
        ensures
            r == self.spec_gt(*other),
    {
        if self.config_id != other.config_id {
            self.config_id > other.config_id
        } else if self.n != other.n {
            self.n > other.n
        } else if self.priority != other.priority {
            self.priority > other.priority
        } else {
            self.pid > other.pid
        }
    }
}

/// The ballot order is a strict total order: irreflexive, transitive, and any two
/// distinct ballots are comparable.
pub proof fn lemma_ballot_order(a: Ballot, b: Ballot, c: Ballot)
    ensures
        !a.spec_gt(a),
        a.spec_gt(b) && b.spec_gt(c) ==> a.spec_gt(c),
        a != b ==> (a.spec_gt(b) || b.spec_gt(a)),
        a.spec_gt(b) ==> !b.spec_gt(a),
{
}

} // verus!
