use vstd::prelude::*;
use core::cmp::Ordering;
use crate::ballot::{Ballot, NodeId};
use crate::log_types::{Entry, LogSync, Promise};
use crate::node_map::NodeMap;
use crate::quorum::Quorum;
use crate::sequence::SequenceNumber;

verus! {

/// Promise without the log update.
#[derive(Copy, Clone, Debug)]
pub struct PromiseMetaData {
    pub n_accepted: Ballot,
    pub accepted_idx: usize,
    pub decided_idx: usize,
    pub pid: NodeId,
}

impl PromiseMetaData {
    /// Two promises are the same when ballot, accepted index and sender match.
    pub open spec fn spec_same(self, other: PromiseMetaData) -> bool {
        self.n_accepted == other.n_accepted && self.accepted_idx == other.accepted_idx
            && self.pid == other.pid
    }

    /// A promise is more up to date than another when its ballot is greater, or the
    /// ballots are equal and its accepted index is greater.
    pub open spec fn spec_gt(self, other: PromiseMetaData) -> bool {
        !self.spec_same(other) && (self.n_accepted.spec_gt(other.n_accepted) || (
        self.n_accepted == other.n_accepted && self.accepted_idx > other.accepted_idx))
    }

    pub open spec fn spec_cmp(self, other: PromiseMetaData) -> Ordering {
        if self.spec_same(other) {
            Ordering::Equal
        } else if self.spec_gt(other) {
            Ordering::Greater
        } else {
            Ordering::Less
        }
    }

    /// The metadata that every real promise exceeds or equals.
    pub open spec fn spec_default() -> PromiseMetaData {
        PromiseMetaData {
            n_accepted: Ballot { config_id: 0, n: 0, priority: 0, pid: 0 },
            accepted_idx: 0,
            decided_idx: 0,
            pid: 0,
        }
    }
}

impl Default for PromiseMetaData {
    fn default() -> (r: Self)
        ensures
            r == PromiseMetaData::spec_default(),
    {
        PromiseMetaData { n_accepted: Ballot::zero(), accepted_idx: 0, decided_idx: 0, pid: 0 }
    }
}

impl PartialEq for PromiseMetaData {
    fn eq(&self, other: &PromiseMetaData) -> (r: bool) {
        self.n_accepted == other.n_accepted && self.accepted_idx == other.accepted_idx
            && self.pid == other.pid
    }
}

impl vstd::std_specs::cmp::PartialEqSpecImpl for PromiseMetaData {
    open spec fn obeys_eq_spec() -> bool {
        true
    }

    open spec fn eq_spec(&self, other: &PromiseMetaData) -> bool {
        self.spec_same(*other)
    }
}

impl PartialOrd for PromiseMetaData {
    fn partial_cmp(&self, other: &PromiseMetaData) -> (r: Option<Ordering>) {
        let ordering = if self.n_accepted == other.n_accepted && self.accepted_idx
            == other.accepted_idx && self.pid == other.pid {
            Ordering::Equal
        } else if self.n_accepted.gt(&other.n_accepted) || (self.n_accepted == other.n_accepted
            && self.accepted_idx > other.accepted_idx) {
            Ordering::Greater
        } else {
            Ordering::Less
        };
        Some(ordering)
    }
}

impl vstd::std_specs::cmp::PartialOrdSpecImpl for PromiseMetaData {
    open spec fn obeys_partial_cmp_spec() -> bool {
        true
    }

    open spec fn partial_cmp_spec(&self, other: &PromiseMetaData) -> Option<Ordering> {
        Some(self.spec_cmp(*other))
    }
}

/// The order on promise metadata is a strict weak order: `>` is irreflexive, asymmetric
/// and transitive, incomparability is transitive, and two promises are equal exactly when
/// ballot, accepted index and sender all match.
pub proof fn lemma_promise_order(a: PromiseMetaData, b: PromiseMetaData, c: PromiseMetaData)
    ensures
        !a.spec_gt(a),
        a.spec_gt(b) ==> !b.spec_gt(a),
        a.spec_gt(b) && b.spec_gt(c) ==> a.spec_gt(c),
        !a.spec_gt(b) && !b.spec_gt(a) && !b.spec_gt(c) && !c.spec_gt(b) ==> !a.spec_gt(c)
            && !c.spec_gt(a),
        a.spec_cmp(b) == Ordering::Equal <==> (a.n_accepted == b.n_accepted && a.accepted_idx
            == b.accepted_idx && a.pid == b.pid),
        a.spec_cmp(b) == Ordering::Greater <==> a.spec_gt(b),
{
    crate::ballot::lemma_ballot_order(a.n_accepted, b.n_accepted, c.n_accepted);
    crate::ballot::lemma_ballot_order(c.n_accepted, b.n_accepted, a.n_accepted);
    crate::ballot::lemma_ballot_order(a.n_accepted, c.n_accepted, b.n_accepted);
}

/// The promise state of a node.
#[derive(Copy, Clone, Debug)]
pub enum PromiseState {
    /// Not promised to any leader.
    NotPromised,
    /// Promised to my ballot.
    Promised(PromiseMetaData),
    /// Promised to a leader whose ballot is greater than mine.
    PromisedHigher,
}

/// The number of keys whose promise state is `Promised`.
pub open spec fn num_promised(keys: Seq<NodeId>, m: Map<NodeId, PromiseState>) -> nat {
    keys.filter(|k: NodeId| m[k] is Promised).len()
}

/// The number of keys whose accepted index is at least `idx`.
pub open spec fn num_accepted_at_least(keys: Seq<NodeId>, m: Map<NodeId, usize>, idx: usize) -> nat {
    keys.filter(|k: NodeId| m[k] >= idx).len()
}

/// The peers of `keys` in `Promised` state, other than `leader_pid`.
pub open spec fn promised_followers(keys: Seq<NodeId>, m: Map<NodeId, PromiseState>, leader_pid: NodeId) -> Seq<NodeId> {
    keys.filter(|k: NodeId| m[k] is Promised && k != leader_pid)
}

/// The peers of `peers` still in `NotPromised` state, in the order given.
pub open spec fn preparable_peers(peers: Seq<NodeId>, m: Map<NodeId, PromiseState>) -> Seq<NodeId> {
    peers.filter(|k: NodeId| m[k] is NotPromised)
}

/// The metadata that a promise from `from` carries.
pub open spec fn promise_meta_of<T: Entry>(prom: Promise<T>, from: NodeId) -> PromiseMetaData {
    PromiseMetaData {
        n_accepted: prom.n_accepted,
        accepted_idx: prom.accepted_idx,
        decided_idx: prom.decided_idx,
        pid: from,
    }
}

/// The greatest decided index among the keys in `Promised` state, `0` if there is none.
pub open spec fn max_decided(keys: Seq<NodeId>, m: Map<NodeId, PromiseState>) -> nat
    decreases keys.len(),
{
    if keys.len() == 0 {
        0
    } else {
        let rest = max_decided(keys.drop_last(), m);
        match m[keys.last()] {
            PromiseState::Promised(meta) => if meta.decided_idx > rest {
                meta.decided_idx as nat
            } else {
                rest
            },
            _ => rest,
        }
    }
}

proof fn lemma_filter_take_step(s: Seq<NodeId>, p: spec_fn(NodeId) -> bool, i: int)
    requires
        0 <= i < s.len(),
    ensures
        s.take(i + 1).filter(p) == if p(s[i]) {
            s.take(i).filter(p).push(s[i])
        } else {
            s.take(i).filter(p)
        },
{
    assert(s.take(i + 1).drop_last() =~= s.take(i));
    assert(s.take(i + 1).last() == s[i]);
    reveal(Seq::filter);
}

proof fn lemma_take_one_more(s: Seq<NodeId>, i: int)
    requires
        0 <= i < s.len(),
    ensures
        forall|k: NodeId| #[trigger]
            s.take(i + 1).contains(k) <==> (s.take(i).contains(k) || k == s[i]),
{
    let a = s.take(i);
    let b = s.take(i + 1);
    assert forall|k: NodeId| #[trigger] b.contains(k) <==> (a.contains(k) || k == s[i]) by {
        if b.contains(k) && k != s[i] {
            let j = choose|j: int| 0 <= j < b.len() && #[trigger] b[j] == k;
            assert(a[j] == k);
        }
        if a.contains(k) {
            let j = choose|j: int| 0 <= j < a.len() && #[trigger] a[j] == k;
            assert(b[j] == k);
        }
        if k == s[i] {
            assert(b[i] == k);
        }
    }
}

/// The peers of `m` in `Promised` state.
pub open spec fn promised_peers(m: Map<NodeId, PromiseState>) -> Set<NodeId> {
    m.dom().filter(|k: NodeId| m[k] is Promised)
}

/// The peers of `m` whose accepted index is at least `idx`.
pub open spec fn peers_accepted_at_least(m: Map<NodeId, usize>, idx: usize) -> Set<NodeId> {
    m.dom().filter(|k: NodeId| m[k] >= idx)
}

/// Over keys without duplicates, the filtered sequence is as long as the filtered set.
pub proof fn lemma_filter_len_card(keys: Seq<NodeId>, p: spec_fn(NodeId) -> bool)
    requires
        keys.no_duplicates(),
    ensures
        keys.to_set().filter(p).finite(),
        keys.filter(p).len() == keys.to_set().filter(p).len(),
    decreases keys.len(),
{
    broadcast use vstd::seq_lib::seq_to_set_is_finite;

    keys.to_set().lemma_len_filter(p);
    if keys.len() == 0 {
        reveal(Seq::filter);
        assert(keys.to_set().filter(p) =~= Set::<NodeId>::empty());
    } else {
        let init = keys.drop_last();
        let last = keys.last();
        assert(init.no_duplicates());
        lemma_filter_len_card(init, p);
        reveal(Seq::filter);
        assert(keys == init + seq![last]);
        Seq::lemma_to_set_insert_commutes(init, last);
        assert(!init.to_set().contains(last)) by {
            if init.contains(last) {
                let j = choose|j: int| 0 <= j < init.len() && init[j] == last;
                assert(keys[j] == keys[keys.len() - 1]);
            }
        };
        if p(last) {
            assert(keys.to_set().filter(p) =~= init.to_set().filter(p).insert(last));
        } else {
            assert(keys.to_set().filter(p) =~= init.to_set().filter(p));
        }
    }
}

/// When the keys hold each key of `m` once, counting promised keys counts the promised peers.
pub proof fn lemma_num_promised_card(keys: Seq<NodeId>, m: Map<NodeId, PromiseState>)
    requires
        keys.no_duplicates(),
        forall|k: NodeId| m.contains_key(k) <==> #[trigger] keys.contains(k),
    ensures
        promised_peers(m).finite(),
        num_promised(keys, m) == promised_peers(m).len(),
{
    lemma_filter_len_card(keys, |k: NodeId| m[k] is Promised);
    assert(keys.to_set() =~= m.dom());
}

/// When the keys hold each key of `m` once, counting keys at or beyond `idx` counts the
/// peers at or beyond `idx`.
pub proof fn lemma_num_accepted_card(keys: Seq<NodeId>, m: Map<NodeId, usize>, idx: usize)
    requires
        keys.no_duplicates(),
        forall|k: NodeId| m.contains_key(k) <==> #[trigger] keys.contains(k),
    ensures
        peers_accepted_at_least(m, idx).finite(),
        num_accepted_at_least(keys, m, idx) == peers_accepted_at_least(m, idx).len(),
{
    lemma_filter_len_card(keys, |k: NodeId| m[k] >= idx);
    assert(keys.to_set() =~= m.dom());
}

/// `max_decided` bounds the decided index of every promised key and, when positive, is
/// the decided index of one of them.
pub proof fn lemma_max_decided(keys: Seq<NodeId>, m: Map<NodeId, PromiseState>)
    ensures
        forall|i: int|
            0 <= i < keys.len() && #[trigger] m[keys[i]] is Promised ==> m[keys[i]]->Promised_0.decided_idx
                <= max_decided(keys, m),
        max_decided(keys, m) == 0 || exists|i: int|
            0 <= i < keys.len() && #[trigger] m[keys[i]] is Promised
                && m[keys[i]]->Promised_0.decided_idx == max_decided(keys, m),
    decreases keys.len(),
{
    if keys.len() > 0 {
        let init = keys.drop_last();
        lemma_max_decided(init, m);
        assert forall|i: int|
            0 <= i < keys.len() && #[trigger] m[keys[i]] is Promised implies m[keys[i]]->Promised_0.decided_idx
                <= max_decided(keys, m) by {
            if i < init.len() {
                assert(init[i] == keys[i]);
            }
        }
        if max_decided(keys, m) != 0 {
            if max_decided(keys, m) != max_decided(init, m) {
                assert(m[keys[keys.len() - 1]] is Promised);
            } else {
                let j = choose|j: int|
                    0 <= j < init.len() && #[trigger] m[init[j]] is Promised
                        && m[init[j]]->Promised_0.decided_idx == max_decided(init, m);
                assert(keys[j] == init[j]);
            }
        }
    }
}

/// Filtering the promised followers out of keys without duplicates keeps exactly the
/// promised keys other than the leader, each once.
pub proof fn lemma_promised_followers(
    keys: Seq<NodeId>,
    m: Map<NodeId, PromiseState>,
    leader_pid: NodeId,
)
    requires
        keys.no_duplicates(),
    ensures
        promised_followers(keys, m, leader_pid).no_duplicates(),
        forall|k: NodeId| #[trigger]
            promised_followers(keys, m, leader_pid).contains(k) <==> (keys.contains(k)
                && m[k] is Promised && k != leader_pid),
    decreases keys.len(),
{
    reveal(Seq::filter);
    if keys.len() > 0 {
        let init = keys.drop_last();
        let last = keys.last();
        assert(init.no_duplicates());
        lemma_promised_followers(init, m, leader_pid);
        let f = promised_followers(keys, m, leader_pid);
        let fi = promised_followers(init, m, leader_pid);
        assert(keys == init.push(last));
        assert(!init.contains(last)) by {
            if init.contains(last) {
                let j = choose|j: int| 0 <= j < init.len() && init[j] == last;
                assert(keys[j] == keys[keys.len() - 1]);
            }
        };
        assert forall|k: NodeId| #[trigger] keys.contains(k) <==> (init.contains(k) || k == last) by {
            if keys.contains(k) && k != last {
                let j = choose|j: int| 0 <= j < keys.len() && keys[j] == k;
                assert(init[j] == k);
            }
            if init.contains(k) {
                let j = choose|j: int| 0 <= j < init.len() && init[j] == k;
                assert(keys[j] == k);
            }
            if k == last {
                assert(keys[keys.len() - 1] == k);
            }
        }
        if m[last] is Promised && last != leader_pid {
            assert(f == fi.push(last));
            assert forall|k: NodeId| #[trigger] f.contains(k) <==> (fi.contains(k) || k == last) by {
                if f.contains(k) && k != last {
                    let j = choose|j: int| 0 <= j < f.len() && f[j] == k;
                    assert(fi[j] == k);
                }
                if fi.contains(k) {
                    let j = choose|j: int| 0 <= j < fi.len() && fi[j] == k;
                    assert(f[j] == k);
                }
                if k == last {
                    assert(f[f.len() - 1] == k);
                }
            }
            assert forall|i: int, j: int| 0 <= i < f.len() && 0 <= j < f.len() && i != j implies f[i]
                != f[j] by {
                if i < fi.len() && j < fi.len() {
                } else if i < fi.len() {
                    assert(fi.contains(f[i]));
                } else if j < fi.len() {
                    assert(fi.contains(f[j]));
                }
            }
        } else {
            assert(f == fi);
        }
    }
}

/// The bookkeeping of a leader over one ballot.
pub struct LeaderState<T: Entry> {
    pub n_leader: Ballot,
    promises_meta: NodeMap<PromiseState>,
    /// The sequence number of accepts for each follower.
    follower_seq_nums: NodeMap<SequenceNumber>,
    accepted_indexes: NodeMap<usize>,
    max_promise_meta: PromiseMetaData,
    max_promise_sync: Option<LogSync<T>>,
    latest_accept_meta: NodeMap<Option<(Ballot, usize)>>,
    /// The number of promises needed in the prepare phase to become synced and the number
    /// of accepteds needed in the accept phase to decide an entry.
    pub quorum: Quorum,
}

impl<T: Entry> LeaderState<T> {
    /// The ballot this state leads with.
    pub closed spec fn leader(&self) -> Ballot {
        self.n_leader
    }

    /// The quorum in effect.
    pub closed spec fn spec_quorum(&self) -> Quorum {
        self.quorum
    }

    /// The promise state of each peer.
    pub closed spec fn promises(&self) -> Map<NodeId, PromiseState> {
        self.promises_meta@
    }

    /// The peers with a promise state, in order of first appearance.
    pub closed spec fn promise_keys(&self) -> Seq<NodeId> {
        self.promises_meta.keys()
    }

    /// The last sequence number sent to each follower.
    pub closed spec fn seq_nums(&self) -> Map<NodeId, SequenceNumber> {
        self.follower_seq_nums@
    }

    /// The highest log index each peer has acknowledged.
    pub closed spec fn accepted(&self) -> Map<NodeId, usize> {
        self.accepted_indexes@
    }

    /// The peers with an accepted index, in order of first appearance.
    pub closed spec fn accepted_keys(&self) -> Seq<NodeId> {
        self.accepted_indexes.keys()
    }

    /// The in-flight accept sent to each peer.
    pub closed spec fn latest_accept(&self) -> Map<NodeId, Option<(Ballot, usize)>> {
        self.latest_accept_meta@
    }

    /// The most up-to-date promise taken into account so far.
    pub closed spec fn max_meta(&self) -> PromiseMetaData {
        self.max_promise_meta
    }

    /// The log suffix that came with the most up-to-date promise.
    pub closed spec fn max_sync(&self) -> Option<LogSync<T>> {
        self.max_promise_sync
    }

    /// The peer sequences hold each tracked peer exactly once: the promise keys are the
    /// peers with a promise state, and the accepted keys the peers with an accepted index.
    pub open spec fn keys_track(&self) -> bool {
        &&& self.promise_keys().no_duplicates()
        &&& forall|k: NodeId| self.promises().contains_key(k) <==> #[trigger] self.promise_keys().contains(k)
        &&& self.accepted_keys().no_duplicates()
        &&& forall|k: NodeId| self.accepted().contains_key(k) <==> #[trigger] self.accepted_keys().contains(k)
    }

    /// A well-formed state tracks each peer exactly once.
    pub proof fn lemma_keys_track(&self)
        requires
            self.wf(),
        ensures
            self.keys_track(),
    {
    }

    pub closed spec fn wf(&self) -> bool {
        &&& self.promises_meta.wf()
        &&& self.follower_seq_nums.wf()
        &&& self.accepted_indexes.wf()
        &&& self.latest_accept_meta.wf()
    }

    /// Whether entry `idx` has been acknowledged by an accept quorum.
    pub closed spec fn chosen(&self, idx: usize) -> bool {
        self.quorum.spec_is_accept_quorum(
            num_accepted_at_least(self.accepted_keys(), self.accepted(), idx),
        )
    }

    /// A fresh state for ballot `n_leader`: every peer not promised, with a zero sequence
    /// number, accepted index zero and no accept in flight.
    pub fn with(n_leader: Ballot, peers: &[NodeId], quorum: Quorum) -> (r: Self)
        ensures
            r.wf(),
            r.leader() == n_leader,
            r.spec_quorum() == quorum,
            r.promises() == Map::new(
                |k: NodeId| peers@.contains(k),
                |k: NodeId| PromiseState::NotPromised,
            ),
            r.seq_nums() == Map::new(
                |k: NodeId| peers@.contains(k),
                |k: NodeId| SequenceNumber { session: 0, counter: 0 },
            ),
            r.accepted() == Map::new(|k: NodeId| peers@.contains(k), |k: NodeId| 0usize),
            r.latest_accept() == Map::new(
                |k: NodeId| peers@.contains(k),
                |k: NodeId| None::<(Ballot, usize)>,
            ),
            r.max_meta() == PromiseMetaData::spec_default(),
            r.max_sync() is None,
            r.keys_track(),
    {
        let mut promises_meta: NodeMap<PromiseState> = NodeMap::new();
        let mut follower_seq_nums: NodeMap<SequenceNumber> = NodeMap::new();
        let mut accepted_indexes: NodeMap<usize> = NodeMap::new();
        let mut latest_accept_meta: NodeMap<Option<(Ballot, usize)>> = NodeMap::new();
        let mut i: usize = 0;
        while i < peers.len()
            invariant
                i <= peers@.len(),
                promises_meta.wf(),
                follower_seq_nums.wf(),
                accepted_indexes.wf(),
                latest_accept_meta.wf(),
                promises_meta@ == Map::new(
                    |k: NodeId| peers@.take(i as int).contains(k),
                    |k: NodeId| PromiseState::NotPromised,
                ),
                follower_seq_nums@ == Map::new(
                    |k: NodeId| peers@.take(i as int).contains(k),
                    |k: NodeId| SequenceNumber { session: 0, counter: 0 },
                ),
                accepted_indexes@ == Map::new(
                    |k: NodeId| peers@.take(i as int).contains(k),
                    |k: NodeId| 0usize,
                ),
                latest_accept_meta@ == Map::new(
                    |k: NodeId| peers@.take(i as int).contains(k),
                    |k: NodeId| None::<(Ballot, usize)>,
                ),
            decreases peers@.len() - i,
        {
            let peer = peers[i];
            promises_meta.insert(peer, PromiseState::NotPromised);
            follower_seq_nums.insert(peer, SequenceNumber::new(0, 0));
            accepted_indexes.insert(peer, 0);
            latest_accept_meta.insert(peer, None);
            proof {
                assert(peers@.take(i + 1) == peers@.take(i as int).push(peer));
                lemma_take_one_more(peers@, i as int);
                assert(promises_meta@ =~= Map::new(
                    |k: NodeId| peers@.take(i + 1).contains(k),
                    |k: NodeId| PromiseState::NotPromised,
                ));
                assert(follower_seq_nums@ =~= Map::new(
                    |k: NodeId| peers@.take(i + 1).contains(k),
                    |k: NodeId| SequenceNumber { session: 0, counter: 0 },
                ));
                assert(accepted_indexes@ =~= Map::new(
                    |k: NodeId| peers@.take(i + 1).contains(k),
                    |k: NodeId| 0usize,
                ));
                assert(latest_accept_meta@ =~= Map::new(
                    |k: NodeId| peers@.take(i + 1).contains(k),
                    |k: NodeId| None::<(Ballot, usize)>,
                ));
            }
            i = i + 1;
        }
        assert(peers@.take(peers@.len() as int) == peers@);
        LeaderState {
            n_leader,
            promises_meta,
            follower_seq_nums,
            accepted_indexes,
            max_promise_meta: PromiseMetaData::default(),
            max_promise_sync: None,
            latest_accept_meta,
            quorum,
        }
    }

    /// `self` and `o` have the same ballot and quorum.
    pub open spec fn same_frame(&self, o: &Self) -> bool {
        &&& self.leader() == o.leader()
        &&& self.spec_quorum() == o.spec_quorum()
    }

    pub open spec fn same_promises(&self, o: &Self) -> bool {
        &&& self.promises() == o.promises()
        &&& self.promise_keys() == o.promise_keys()
        &&& self.max_meta() == o.max_meta()
        &&& self.max_sync() == o.max_sync()
    }

    pub open spec fn same_seq_nums(&self, o: &Self) -> bool {
        self.seq_nums() == o.seq_nums()
    }

    pub open spec fn same_accepted(&self, o: &Self) -> bool {
        &&& self.accepted() == o.accepted()
        &&& self.accepted_keys() == o.accepted_keys()
    }

    pub open spec fn same_latest_accept(&self, o: &Self) -> bool {
        self.latest_accept() == o.latest_accept()
    }

    /// Starts a new session with `pid`: the session grows by one and the counter restarts.
    pub fn increment_seq_num_session(&mut self, pid: NodeId)
        requires
            old(self).wf(),
            old(self).seq_nums().contains_key(pid) ==> old(self).seq_nums()[pid].session
                < u64::MAX,
        ensures
            final(self).wf(),
            final(self).seq_nums() == if old(self).seq_nums().contains_key(pid) {
                old(self).seq_nums().insert(
                    pid,
                    SequenceNumber {
                        session: (old(self).seq_nums()[pid].session + 1) as u64,
                        counter: 0,
                    },
                )
            } else {
                old(self).seq_nums()
            },
            final(self).same_frame(old(self)),
            final(self).same_promises(old(self)),
            final(self).same_accepted(old(self)),
            final(self).same_latest_accept(old(self)),
    {
        let current = match self.follower_seq_nums.get(pid) {
            Some(seq_num) => Some(*seq_num),
            None => None,
        };
        if let Some(seq_num) = current {
            self.follower_seq_nums.insert(pid, SequenceNumber::new(seq_num.session + 1, 0));
        }
    }

    /// The sequence number of the next accept sent to `pid`: the counter grows by one
    /// within the current session, and an unknown peer starts at counter one.
    pub fn next_seq_num(&mut self, pid: NodeId) -> (r: SequenceNumber)
        requires
            old(self).wf(),
            old(self).seq_nums().contains_key(pid) ==> old(self).seq_nums()[pid].counter
                < u64::MAX,
        ensures
            final(self).wf(),
            r == if old(self).seq_nums().contains_key(pid) {
                SequenceNumber {
                    session: old(self).seq_nums()[pid].session,
                    counter: (old(self).seq_nums()[pid].counter + 1) as u64,
                }
            } else {
                SequenceNumber { session: 0, counter: 1 }
            },
            final(self).seq_nums() == old(self).seq_nums().insert(pid, r),
            final(self).same_frame(old(self)),
            final(self).same_promises(old(self)),
            final(self).same_accepted(old(self)),
            final(self).same_latest_accept(old(self)),
    {
        let current = match self.follower_seq_nums.get(pid) {
            Some(seq_num) => Some(*seq_num),
            None => None,
        };
        let next = match current {
            Some(seq_num) => SequenceNumber::new(seq_num.session, seq_num.counter + 1),
            None => SequenceNumber::new(0, 1),
        };
        self.follower_seq_nums.insert(pid, next);
        next
    }

    /// The last sequence number sent to `pid`, zero if none.
    pub fn get_seq_num(&self, pid: NodeId) -> (r: SequenceNumber)
        requires
            self.wf(),
        ensures
            r == if self.seq_nums().contains_key(pid) {
                self.seq_nums()[pid]
            } else {
                SequenceNumber { session: 0, counter: 0 }
            },
    {
        match self.follower_seq_nums.get(pid) {
            Some(seq_num) => *seq_num,
            None => SequenceNumber::new(0, 0),
        }
    }

    fn count_promised(&self) -> (r: usize)
        requires
            self.wf(),
        ensures
            r == num_promised(self.promise_keys(), self.promises()),
    {
        let ghost keys = self.promise_keys();
        let ghost m = self.promises();
        let mut n: usize = 0;
        let mut i: usize = 0;
        while i < self.promises_meta.len()
            invariant
                self.wf(),
                keys == self.promise_keys(),
                m == self.promises(),
                i <= keys.len(),
                n <= i,
                n == num_promised(keys.take(i as int), m),
            decreases keys.len() - i,
        {
            let v = self.promises_meta.value_at(i);
            proof {
                lemma_filter_take_step(keys, |k: NodeId| m[k] is Promised, i as int);
            }
            match v {
                PromiseState::Promised(_) => {
                    n = n + 1;
                },
                _ => {},
            }
            i = i + 1;
        }
        proof {
            assert(keys.take(keys.len() as int) =~= keys);
        }
        n
    }

    /// Records the promise of `from`; when `check_max_prom` holds and the promise is more up
    /// to date than the maximum so far, it becomes the maximum and its log suffix is kept.
    /// Returns whether the peers in `Promised` state now form a prepare quorum.
    pub fn set_promise(&mut self, prom: Promise<T>, from: NodeId, check_max_prom: bool) -> (r: bool)
        requires
            old(self).wf(),
        ensures
            final(self).wf(),
            final(self).promises() == old(self).promises().insert(
                from,
                PromiseState::Promised(promise_meta_of(prom, from)),
            ),
            final(self).promise_keys() == if old(self).promises().contains_key(from) {
                old(self).promise_keys()
            } else {
                old(self).promise_keys().push(from)
            },
            if check_max_prom && promise_meta_of(prom, from).spec_gt(old(self).max_meta()) {
                final(self).max_meta() == promise_meta_of(prom, from) && final(self).max_sync()
                    == prom.log_sync
            } else {
                final(self).max_meta() == old(self).max_meta() && final(self).max_sync()
                    == old(self).max_sync()
            },
            final(self).max_meta() == old(self).max_meta() || final(self).max_meta().spec_gt(
                old(self).max_meta(),
            ),
            r == old(self).spec_quorum().spec_is_prepare_quorum(
                num_promised(final(self).promise_keys(), final(self).promises()),
            ),
            r == old(self).spec_quorum().spec_is_prepare_quorum(
                promised_peers(final(self).promises()).len(),
            ),
            final(self).same_frame(old(self)),
            final(self).same_seq_nums(old(self)),
            final(self).same_accepted(old(self)),
            final(self).same_latest_accept(old(self)),
    {
        let promise_meta = PromiseMetaData {
            n_accepted: prom.n_accepted,
            accepted_idx: prom.accepted_idx,
            decided_idx: prom.decided_idx,
            pid: from,
        };
        if check_max_prom && promise_meta > self.max_promise_meta {
            self.max_promise_meta = promise_meta;
            self.max_promise_sync = prom.log_sync;
        }
        self.promises_meta.insert(from, PromiseState::Promised(promise_meta));
        let num_promised = self.count_promised();
        proof {
            lemma_num_promised_card(self.promise_keys(), self.promises());
        }
        self.quorum.is_prepare_quorum(num_promised)
    }

    /// Forces `pid` back to the `NotPromised` state.
    pub fn reset_promise(&mut self, pid: NodeId)
        requires
            old(self).wf(),
        ensures
            final(self).wf(),
            final(self).promises() == old(self).promises().insert(pid, PromiseState::NotPromised),
            final(self).promise_keys() == if old(self).promises().contains_key(pid) {
                old(self).promise_keys()
            } else {
                old(self).promise_keys().push(pid)
            },
            final(self).max_meta() == old(self).max_meta(),
            final(self).max_sync() == old(self).max_sync(),
            final(self).same_frame(old(self)),
            final(self).same_seq_nums(old(self)),
            final(self).same_accepted(old(self)),
            final(self).same_latest_accept(old(self)),
    {
        self.promises_meta.insert(pid, PromiseState::NotPromised);
    }

    /// Node `pid` seen with ballot greater than my ballot.
    pub fn lost_promise(&mut self, pid: NodeId)
        requires
            old(self).wf(),
        ensures
            final(self).wf(),
            final(self).promises() == old(self).promises().insert(pid, PromiseState::PromisedHigher),
            final(self).promise_keys() == if old(self).promises().contains_key(pid) {
                old(self).promise_keys()
            } else {
                old(self).promise_keys().push(pid)
            },
            final(self).max_meta() == old(self).max_meta(),
            final(self).max_sync() == old(self).max_sync(),
            final(self).same_frame(old(self)),
            final(self).same_seq_nums(old(self)),
            final(self).same_accepted(old(self)),
            final(self).same_latest_accept(old(self)),
    {
        self.promises_meta.insert(pid, PromiseState::PromisedHigher);
    }

    /// Hands out the log suffix of the maximal promise, leaving none behind.
    pub fn take_max_promise_sync(&mut self) -> (r: Option<LogSync<T>>)
        requires
            old(self).wf(),
        ensures
            final(self).wf(),
            r == old(self).max_sync(),
            final(self).max_sync() is None,
            final(self).max_meta() == old(self).max_meta(),
            final(self).promises() == old(self).promises(),
            final(self).promise_keys() == old(self).promise_keys(),
            final(self).same_frame(old(self)),
            final(self).same_seq_nums(old(self)),
            final(self).same_accepted(old(self)),
            final(self).same_latest_accept(old(self)),
    {
        self.max_promise_sync.take()
    }

    pub fn get_max_promise_meta(&self) -> (r: &PromiseMetaData)
        ensures
            *r == self.max_meta(),
    {
        &self.max_promise_meta
    }

    /// The greatest decided index among the promised peers, `0` if none has promised.
    pub fn get_max_decided_idx(&self) -> (r: usize)
        requires
            self.wf(),
        ensures
            r == max_decided(self.promise_keys(), self.promises()),
            forall|k: NodeId|
                self.promises().contains_key(k) && #[trigger] self.promises()[k] is Promised
                    ==> self.promises()[k]->Promised_0.decided_idx <= r,
            r == 0 || exists|k: NodeId|
                self.promises().contains_key(k) && #[trigger] self.promises()[k] is Promised
                    && self.promises()[k]->Promised_0.decided_idx == r,
    {
        proof {
            lemma_max_decided(self.promise_keys(), self.promises());
            assert forall|k: NodeId|
                self.promises().contains_key(k) && #[trigger] self.promises()[k] is Promised
                    implies self.promises()[k]->Promised_0.decided_idx <= max_decided(
                self.promise_keys(),
                self.promises(),
            ) by {
                assert(self.promise_keys().contains(k));
                let i = choose|i: int| 0 <= i < self.promise_keys().len() && self.promise_keys()[i] == k;
                assert(self.promises()[self.promise_keys()[i]] is Promised);
            }
            if max_decided(self.promise_keys(), self.promises()) != 0 {
                let keys = self.promise_keys();
                let m = self.promises();
                let i = choose|i: int|
                    0 <= i < keys.len() && #[trigger] m[keys[i]] is Promised
                        && m[keys[i]]->Promised_0.decided_idx == max_decided(keys, m);
                assert(keys.contains(keys[i]));
                assert(m.contains_key(keys[i]));
            }
        }
        let ghost keys = self.promise_keys();
        let ghost m = self.promises();
        let mut best: usize = 0;
        let mut i: usize = 0;
        while i < self.promises_meta.len()
            invariant
                self.wf(),
                keys == self.promise_keys(),
                m == self.promises(),
                i <= keys.len(),
                best == max_decided(keys.take(i as int), m),
            decreases keys.len() - i,
        {
            let v = self.promises_meta.value_at(i);
            proof {
                assert(keys.take(i + 1).drop_last() =~= keys.take(i as int));
            }
            match v {
                PromiseState::Promised(meta) => {
                    if meta.decided_idx > best {
                        best = meta.decided_idx;
                    }
                },
                _ => {},
            }
            i = i + 1;
        }
        proof {
            assert(keys.take(keys.len() as int) =~= keys);
        }
        best
    }

    /// The metadata of the promise of `pid`, which must be in `Promised` state.
    pub fn get_promise_meta(&self, pid: NodeId) -> (r: &PromiseMetaData)
        requires
            self.wf(),
            self.promises().contains_key(pid),
            self.promises()[pid] is Promised,
        ensures
            *r == self.promises()[pid]->Promised_0,
    {
        match self.promises_meta.get(pid) {
            Some(PromiseState::Promised(metadata)) => metadata,
            _ => {
                proof {
                    assert(false);
                }
                &self.max_promise_meta
            },
        }
    }

    /// Clears the in-flight accept of every peer.
    pub fn reset_latest_accept_meta(&mut self)
        requires
            old(self).wf(),
        ensures
            final(self).wf(),
            final(self).latest_accept().dom() == old(self).latest_accept().dom(),
            forall|k: NodeId| #[trigger]
                final(self).latest_accept().contains_key(k) ==> final(self).latest_accept()[k]
                    is None,
            final(self).same_frame(old(self)),
            final(self).same_promises(old(self)),
            final(self).same_seq_nums(old(self)),
            final(self).same_accepted(old(self)),
    {
        let ghost keys = self.latest_accept_meta.keys();
        let ghost dom = self.latest_accept_meta@.dom();
        let mut i: usize = 0;
        while i < self.latest_accept_meta.len()
            invariant
                self.wf(),
                keys == self.latest_accept_meta.keys(),
                dom == self.latest_accept_meta@.dom(),
                i <= keys.len(),
                forall|j: int| 0 <= j < i ==> self.latest_accept_meta@[#[trigger] keys[j]] is None,
                self.same_frame(old(self)),
                self.same_promises(old(self)),
                self.same_seq_nums(old(self)),
                self.same_accepted(old(self)),
            decreases keys.len() - i,
        {
            proof {
                assert(keys.contains(keys[i as int]));
            }
            self.latest_accept_meta.set_at(i, None);
            proof {
                assert(dom =~= self.latest_accept_meta@.dom());
            }
            i = i + 1;
        }
        assert forall|k: NodeId| #[trigger]
            self.latest_accept_meta@.contains_key(k) implies self.latest_accept_meta@[k] is None by {
            assert(keys.contains(k));
            let j = choose|j: int| 0 <= j < keys.len() && keys[j] == k;
            assert(self.latest_accept_meta@[keys[j]] is None);
        }
    }

    /// The peers other than the leader itself that are in `Promised` state.
    pub fn get_promised_followers(&self) -> (r: Vec<NodeId>)
        requires
            self.wf(),
        ensures
            r@ == promised_followers(self.promise_keys(), self.promises(), self.leader().pid),
            r@.no_duplicates(),
            forall|k: NodeId| #[trigger]
                r@.contains(k) <==> (self.promises().contains_key(k) && self.promises()[k]
                    is Promised && k != self.leader().pid),
    {
        proof {
            lemma_promised_followers(self.promise_keys(), self.promises(), self.leader().pid);
        }
        let ghost keys = self.promise_keys();
        let ghost m = self.promises();
        let leader_pid = self.n_leader.pid;
        let mut res: Vec<NodeId> = Vec::new();
        let mut i: usize = 0;
        while i < self.promises_meta.len()
            invariant
                self.wf(),
                keys == self.promise_keys(),
                m == self.promises(),
                leader_pid == self.leader().pid,
                i <= keys.len(),
                res@ == promised_followers(keys.take(i as int), m, leader_pid),
            decreases keys.len() - i,
        {
            let pid = self.promises_meta.key_at(i);
            let v = self.promises_meta.value_at(i);
            assert(*v == m[pid]);
            proof {
                assert(keys.take(i + 1).drop_last() =~= keys.take(i as int));
                assert(keys.take(i + 1).last() == keys[i as int]);
                reveal(Seq::filter);
                assert(promised_followers(keys.take(i + 1), m, leader_pid) == if m[keys[i as int]] is Promised && keys[i as int] != leader_pid {
                    promised_followers(keys.take(i as int), m, leader_pid).push(keys[i as int])
                } else {
                    promised_followers(keys.take(i as int), m, leader_pid)
                });
            }
            match v {
                PromiseState::Promised(_) => {
                    if pid != leader_pid {
                        res.push(pid);
                    }
                },
                _ => {},
            }
            i = i + 1;
        }
        proof {
            assert(keys.take(keys.len() as int) =~= keys);
        }
        res
    }

    /// The pids of `peers` which have not promised, in the order given.
    pub fn get_preparable_peers(&self, peers: &[NodeId]) -> (r: Vec<NodeId>)
        requires
            self.wf(),
            forall|i: int| 0 <= i < peers@.len() ==> self.promises().contains_key(#[trigger] peers@[i]),
        ensures
            r@ == preparable_peers(peers@, self.promises()),
    {
        let ghost m = self.promises();
        let mut res: Vec<NodeId> = Vec::new();
        let mut i: usize = 0;
        while i < peers.len()
            invariant
                self.wf(),
                m == self.promises(),
                forall|i: int| 0 <= i < peers@.len() ==> m.contains_key(#[trigger] peers@[i]),
                i <= peers@.len(),
                res@ == preparable_peers(peers@.take(i as int), m),
            decreases peers@.len() - i,
        {
            let pid = peers[i];
            proof {
                lemma_filter_take_step(peers@, |k: NodeId| m[k] is NotPromised, i as int);
            }
            match self.promises_meta.get(pid) {
                Some(PromiseState::NotPromised) => {
                    res.push(pid);
                },
                _ => {},
            }
            i = i + 1;
        }
        proof {
            assert(peers@.take(peers@.len() as int) =~= peers@);
        }
        res
    }

    /// Records that the latest accept sent to `pid` carries `(n_leader, idx)`, or clears it
    /// when `idx` is absent.
    pub fn set_latest_accept_meta(&mut self, pid: NodeId, idx: Option<usize>)
        requires
            old(self).wf(),
        ensures
            final(self).wf(),
            final(self).latest_accept() == old(self).latest_accept().insert(
                pid,
                match idx {
                    Some(x) => Some((old(self).leader(), x)),
                    None => None,
                },
            ),
            final(self).same_frame(old(self)),
            final(self).same_promises(old(self)),
            final(self).same_seq_nums(old(self)),
            final(self).same_accepted(old(self)),
    {
        let meta = match idx {
            Some(x) => Some((self.n_leader, x)),
            None => None,
        };
        self.latest_accept_meta.insert(pid, meta);
    }

    /// Records the highest index `pid` has acknowledged.
    pub fn set_accepted_idx(&mut self, pid: NodeId, idx: usize)
        requires
            old(self).wf(),
        ensures
            final(self).wf(),
            final(self).accepted() == old(self).accepted().insert(pid, idx),
            final(self).accepted_keys() == if old(self).accepted().contains_key(pid) {
                old(self).accepted_keys()
            } else {
                old(self).accepted_keys().push(pid)
            },
            final(self).same_frame(old(self)),
            final(self).same_promises(old(self)),
            final(self).same_seq_nums(old(self)),
            final(self).same_latest_accept(old(self)),
    {
        self.accepted_indexes.insert(pid, idx);
    }

    /// The last recorded in-flight accept for `pid`.
    pub fn get_latest_accept_meta(&self, pid: NodeId) -> (r: Option<(Ballot, usize)>)
        requires
            self.wf(),
        ensures
            r == if self.latest_accept().contains_key(pid) {
                self.latest_accept()[pid]
            } else {
                None
            },
    {
        match self.latest_accept_meta.get(pid) {
            Some(meta) => *meta,
            None => None,
        }
    }

    /// The decided index of `pid`'s promise, if it has promised.
    pub fn get_decided_idx(&self, pid: NodeId) -> (r: Option<usize>)
        requires
            self.wf(),
        ensures
            r == if self.promises().contains_key(pid) && self.promises()[pid] is Promised {
                Some(self.promises()[pid]->Promised_0.decided_idx)
            } else {
                None
            },
    {
        match self.promises_meta.get(pid) {
            Some(PromiseState::Promised(metadata)) => Some(metadata.decided_idx),
            _ => None,
        }
    }

    /// The highest index `pid` has acknowledged, `0` if none.
    pub fn get_accepted_idx(&self, pid: NodeId) -> (r: usize)
        requires
            self.wf(),
        ensures
            r == if self.accepted().contains_key(pid) {
                self.accepted()[pid]
            } else {
                0
            },
    {
        match self.accepted_indexes.get(pid) {
            Some(idx) => *idx,
            None => 0,
        }
    }

    /// Whether the peers that acknowledged index `idx` or beyond form an accept quorum.
    pub fn is_chosen(&self, idx: usize) -> (r: bool)
        requires
            self.wf(),
        ensures
            r == self.chosen(idx),
            r == self.spec_quorum().spec_is_accept_quorum(
                num_accepted_at_least(self.accepted_keys(), self.accepted(), idx),
            ),
            r == self.spec_quorum().spec_is_accept_quorum(
                peers_accepted_at_least(self.accepted(), idx).len(),
            ),
    {
        proof {
            lemma_num_accepted_card(self.accepted_keys(), self.accepted(), idx);
        }
        let ghost keys = self.accepted_keys();
        let ghost m = self.accepted();
        let mut n: usize = 0;
        let mut i: usize = 0;
        while i < self.accepted_indexes.len()
            invariant
                self.wf(),
                keys == self.accepted_keys(),
                m == self.accepted(),
                i <= keys.len(),
                n <= i,
                n == num_accepted_at_least(keys.take(i as int), m, idx),
            decreases keys.len() - i,
        {
            let v = *self.accepted_indexes.value_at(i);
            proof {
                lemma_filter_take_step(keys, |k: NodeId| m[k] >= idx, i as int);
            }
            if v >= idx {
                n = n + 1;
            }
            i = i + 1;
        }
        proof {
            assert(keys.take(keys.len() as int) =~= keys);
        }
        self.quorum.is_accept_quorum(n)
    }
}

proof fn lemma_preparable_count(peers: Seq<NodeId>, m: Map<NodeId, PromiseState>, x: NodeId)
    ensures
        preparable_peers(peers, m).to_multiset().count(x) == if m[x] is NotPromised {
            peers.to_multiset().count(x)
        } else {
            0
        },
    decreases peers.len(),
{
    broadcast use vstd::seq_lib::group_to_multiset_ensures;

    if peers.len() > 0 {
        let init = peers.drop_last();
        lemma_preparable_count(init, m, x);
        assert(peers == init.push(peers.last()));
        reveal(Seq::filter);
        assert(peers.to_multiset() == init.to_multiset().insert(peers.last()));
        if m[peers.last()] is NotPromised {
            assert(preparable_peers(peers, m) == preparable_peers(init, m).push(peers.last()));
        } else {
            assert(preparable_peers(peers, m) == preparable_peers(init, m));
        }
    } else {
        assert(peers.to_multiset() =~= vstd::multiset::Multiset::empty());
        assert(preparable_peers(peers, m).to_multiset() =~= vstd::multiset::Multiset::empty()) by {
            reveal(Seq::filter);
        }
    }
}

/// The peers to prepare do not depend on the order in which the candidates are given:
/// rearranging the candidates rearranges the result and changes nothing else.
pub proof fn lemma_preparable_permutation(
    m: Map<NodeId, PromiseState>,
    peers1: Seq<NodeId>,
    peers2: Seq<NodeId>,
)
    requires
        peers1.to_multiset() == peers2.to_multiset(),
    ensures
        preparable_peers(peers1, m).to_multiset() == preparable_peers(peers2, m).to_multiset(),
{
    assert forall|x: NodeId| #[trigger] preparable_peers(peers1, m).to_multiset().count(x)
        == preparable_peers(peers2, m).to_multiset().count(x) by {
        lemma_preparable_count(peers1, m, x);
        lemma_preparable_count(peers2, m, x);
    }
    assert(preparable_peers(peers1, m).to_multiset() =~= preparable_peers(peers2, m).to_multiset());
}

/// The number of peers that acknowledged `idx` or beyond can only grow as peers
/// acknowledge higher indexes.
pub proof fn lemma_num_accepted_monotonic(
    keys: Seq<NodeId>,
    m1: Map<NodeId, usize>,
    m2: Map<NodeId, usize>,
    idx: usize,
)
    requires
        forall|i: int| 0 <= i < keys.len() ==> m1[#[trigger] keys[i]] <= m2[keys[i]],
    ensures
        num_accepted_at_least(keys, m1, idx) <= num_accepted_at_least(keys, m2, idx),
    decreases keys.len(),
{
    if keys.len() > 0 {
        let init = keys.drop_last();
        assert forall|i: int| 0 <= i < init.len() implies m1[#[trigger] init[i]] <= m2[init[i]] by {
            assert(init[i] == keys[i]);
        }
        lemma_num_accepted_monotonic(init, m1, m2, idx);
        assert(m1[keys[keys.len() - 1]] <= m2[keys[keys.len() - 1]]);
        reveal(Seq::filter);
    }
}

impl<T: Entry> LeaderState<T> {
    /// An index is chosen exactly when the peers that acknowledged it or beyond reach the
    /// write quorum, and once chosen it stays chosen as the same peers acknowledge higher
    /// indexes.
    pub proof fn lemma_chosen_stays(s1: &Self, s2: &Self, idx: usize)
        requires
            s2.spec_quorum() == s1.spec_quorum(),
            s2.accepted_keys() == s1.accepted_keys(),
            forall|k: NodeId| #[trigger]
                s1.accepted().contains_key(k) ==> s2.accepted().contains_key(k) && s1.accepted()[k]
                    <= s2.accepted()[k],
            s1.keys_track(),
        ensures
            s1.chosen(idx) == s1.spec_quorum().spec_is_accept_quorum(
                num_accepted_at_least(s1.accepted_keys(), s1.accepted(), idx),
            ),
            s1.chosen(idx) ==> s2.chosen(idx),
    {
        let keys = s1.accepted_keys();
        assert forall|i: int| 0 <= i < keys.len() implies s1.accepted()[#[trigger] keys[i]]
            <= s2.accepted()[keys[i]] by {
            assert(keys.contains(keys[i]));
            assert(s1.accepted().contains_key(keys[i]));
        }
        lemma_num_accepted_monotonic(keys, s1.accepted(), s2.accepted(), idx);
    }

    /// A peer acknowledging an index at least as high as its last one keeps every chosen
    /// index chosen, whether or not the peer was tracked before.
    pub proof fn lemma_chosen_after_ack(s1: &Self, s2: &Self, pid: NodeId, j: usize, idx: usize)
        requires
            s1.keys_track(),
            s2.spec_quorum() == s1.spec_quorum(),
            s2.accepted() == s1.accepted().insert(pid, j),
            s2.accepted_keys() == if s1.accepted().contains_key(pid) {
                s1.accepted_keys()
            } else {
                s1.accepted_keys().push(pid)
            },
            s1.accepted().contains_key(pid) ==> s1.accepted()[pid] <= j,
        ensures
            s1.chosen(idx) ==> s2.chosen(idx),
    {
        let keys = s1.accepted_keys();
        let m1 = s1.accepted();
        let m2 = s2.accepted();
        if m1.contains_key(pid) {
            lemma_num_accepted_monotonic(keys, m1, m2, idx);
        } else {
            assert forall|i: int| 0 <= i < keys.len() implies m1[#[trigger] keys[i]] == m2[keys[i]] by {
                assert(keys.contains(keys[i]));
            }
            lemma_num_accepted_monotonic(keys, m1, m2, idx);
            let k2 = keys.push(pid);
            assert(k2.drop_last() == keys);
            reveal(Seq::filter);
            assert(num_accepted_at_least(k2, m2, idx) >= num_accepted_at_least(keys, m2, idx));
        }
    }
}

} // verus!
