use vstd::prelude::*;

verus! {

/// Flexible quorums can be used to increase/decrease the read and write quorum sizes,
/// for different latency vs fault tolerance tradeoffs.
#[derive(Copy, Clone, Debug, PartialEq, Eq, Structural)]
pub struct FlexibleQuorum {
    /// The number of nodes a leader needs to consult to get an up-to-date view of the log.
    pub read_quorum_size: usize,
    /// The number of acknowledgments a leader needs to commit an entry to the log.
    pub write_quorum_size: usize,
}

/// The type of quorum used by the cluster.
#[derive(Copy, Clone, Debug, PartialEq, Eq, Structural)]
pub enum Quorum {
    /// Both the read quorum and the write quorums are a majority of nodes.
    Majority(usize),
    /// The read and write quorum sizes are defined by a `FlexibleQuorum`.
    Flexible(FlexibleQuorum),
}

/// The majority threshold of a cluster of `num_nodes` nodes.
pub open spec fn majority_of(num_nodes: nat) -> nat {
    num_nodes / 2 + 1
}

impl Quorum {
    /// The number of promises needed to finish the prepare phase.
    pub open spec fn read_threshold(self) -> nat {
        match self {
            Quorum::Majority(m) => m as nat,
            Quorum::Flexible(f) => f.read_quorum_size as nat,
        }
    }

    /// The number of acknowledgements needed to choose an entry.
    pub open spec fn write_threshold(self) -> nat {
        match self {
            Quorum::Majority(m) => m as nat,
            Quorum::Flexible(f) => f.write_quorum_size as nat,
        }
    }

    pub open spec fn spec_is_prepare_quorum(self, num_nodes: nat) -> bool {
        num_nodes >= self.read_threshold()
    }

    pub open spec fn spec_is_accept_quorum(self, num_nodes: nat) -> bool {
        num_nodes >= self.write_threshold()
    }

    /// Builds the flexible quorum when one is configured, else a majority of `num_nodes`.
    pub fn with(flexible_quorum_config: Option<FlexibleQuorum>, num_nodes: usize) -> (r: Self)
        ensures
            r == (match flexible_quorum_config {
                Some(f) => Quorum::Flexible(f),
                None => Quorum::Majority(majority_of(num_nodes as nat) as usize),
            }),
    {
        match flexible_quorum_config {
            Some(FlexibleQuorum { read_quorum_size, write_quorum_size }) => Quorum::Flexible(
                FlexibleQuorum { read_quorum_size, write_quorum_size },
            ),
            None => Quorum::Majority(num_nodes / 2 + 1),
        }
    }

    pub fn is_prepare_quorum(&self, num_nodes: usize) -> (r: bool)
        ensures
            r == self.spec_is_prepare_quorum(num_nodes as nat),
    {
        match self {
            Quorum::Majority(majority) => num_nodes >= *majority,
            Quorum::Flexible(flex_quorum) => num_nodes >= flex_quorum.read_quorum_size,
        }
    }

    pub fn is_accept_quorum(&self, num_nodes: usize) -> (r: bool)
        ensures
            r == self.spec_is_accept_quorum(num_nodes as nat),
    {
        match self {
            Quorum::Majority(majority) => num_nodes >= *majority,
            Quorum::Flexible(flex_quorum) => num_nodes >= flex_quorum.write_quorum_size,
        }
    }
}

/// Both quorum predicates are monotonic in the number of nodes: once `a` nodes make a
/// quorum, so does any larger number `b`.
pub proof fn lemma_quorum_monotonic(q: Quorum, a: nat, b: nat)
    requires
        a <= b,
    ensures
        q.spec_is_prepare_quorum(a) ==> q.spec_is_prepare_quorum(b),
        q.spec_is_accept_quorum(a) ==> q.spec_is_accept_quorum(b),
{
}

/// Without a flexible configuration the quorum is the majority `n / 2 + 1` of the `n`
/// nodes, for every cluster size, and that majority is more than half of the nodes.
pub proof fn lemma_majority_threshold(num_nodes: usize)
    requires
        num_nodes >= 1,
    ensures
        Quorum::with_spec_majority(num_nodes).read_threshold() == num_nodes as nat / 2 + 1,
        Quorum::with_spec_majority(num_nodes).write_threshold() == num_nodes as nat / 2 + 1,
        2 * Quorum::with_spec_majority(num_nodes).read_threshold() > num_nodes,
        Quorum::with_spec_majority(num_nodes).read_threshold() <= num_nodes,
{
}

impl Quorum {
    /// The quorum that `with(None, num_nodes)` builds.
    pub open spec fn with_spec_majority(num_nodes: usize) -> Quorum {
        Quorum::Majority(majority_of(num_nodes as nat) as usize)
    }
}

} // verus!
