use omnipaxos::{
    Ballot, Entry, LeaderState, LogSync, NodeId, Promise, PromiseMetaData, Quorum,
    SequenceNumber,
};
use std::cmp::Ordering;

#[derive(Clone, Debug, PartialEq)]
struct Value(u64);

#[derive(Clone, Debug, PartialEq)]
struct NoSnapshot;

impl Entry for Value {
    type Snapshot = NoSnapshot;
}

fn promise(n_accepted: Ballot, accepted_idx: usize, decided_idx: usize) -> Promise<Value> {
    Promise {
        n: Ballot::with(0, 2, 0, 1),
        n_accepted,
        decided_idx,
        accepted_idx,
        log_sync: None,
    }
}

fn promise_with_sync(n_accepted: Ballot, accepted_idx: usize, suffix: Vec<Value>) -> Promise<Value> {
    Promise {
        n: Ballot::with(0, 2, 0, 1),
        n_accepted,
        decided_idx: 0,
        accepted_idx,
        log_sync: Some(LogSync {
            decided_snapshot: None,
            suffix,
            sync_idx: accepted_idx,
            stopsign: None,
        }),
    }
}

fn meta(n_accepted: Ballot, accepted_idx: usize, decided_idx: usize, pid: NodeId) -> PromiseMetaData {
    PromiseMetaData { n_accepted, accepted_idx, decided_idx, pid }
}

#[test]
fn preparable_peers_test() {
    let nodes = vec![6, 7, 8];
    let quorum = Quorum::Majority(2);
    let max_pid = 8;
    let leader_state = LeaderState::<Value>::with(Ballot::with(1, 1, 1, max_pid), &nodes, quorum);
    let prep_peers = leader_state.get_preparable_peers(&nodes);
    assert_eq!(prep_peers, nodes);

    let nodes = vec![7, 1, 100, 4, 6];
    let quorum = Quorum::Majority(3);
    let max_pid = 100;
    let leader_state = LeaderState::<Value>::with(Ballot::with(1, 1, 1, max_pid), &nodes, quorum);
    let prep_peers = leader_state.get_preparable_peers(&nodes);
    assert_eq!(prep_peers, nodes);
}

#[test]
fn preparable_peers_skip_promised_and_higher() {
    let nodes: Vec<NodeId> = vec![2, 3, 4, 5];
    let mut ls = LeaderState::<Value>::with(Ballot::with(0, 2, 0, 1), &nodes, Quorum::Majority(3));
    ls.set_promise(promise(Ballot::with(0, 1, 0, 5), 10, 0), 3, true);
    ls.lost_promise(5);
    assert_eq!(ls.get_preparable_peers(&nodes), vec![2, 4]);
    let reordered: Vec<NodeId> = vec![5, 4, 3, 2];
    assert_eq!(ls.get_preparable_peers(&reordered), vec![4, 2]);
    ls.reset_promise(3);
    assert_eq!(ls.get_preparable_peers(&nodes), vec![2, 3, 4]);
}

#[test]
fn five_node_election_scenario() {
    let peers: Vec<NodeId> = vec![1, 2, 3, 4, 5];
    let mut ls = LeaderState::<Value>::with(Ballot::with(0, 2, 0, 1), &peers, Quorum::Majority(3));
    assert!(!ls.set_promise(promise(Ballot::with(0, 1, 0, 5), 10, 0), 2, true));
    assert!(!ls.set_promise(promise(Ballot::with(0, 1, 0, 3), 7, 0), 3, true));
    assert!(ls.set_promise(promise(Ballot::with(0, 2, 0, 1), 12, 0), 4, true));
    let max = *ls.get_max_promise_meta();
    assert!(max == meta(Ballot::with(0, 2, 0, 1), 12, 0, 4));
    assert_eq!(max.n_accepted, Ballot::with(0, 2, 0, 1));
    assert_eq!(max.accepted_idx, 12);
    assert_eq!(max.pid, 4);
}

#[test]
fn weaker_promise_keeps_max_sync() {
    let peers: Vec<NodeId> = vec![1, 2, 3];
    let mut ls = LeaderState::<Value>::with(Ballot::with(0, 3, 0, 1), &peers, Quorum::Majority(2));
    ls.set_promise(promise_with_sync(Ballot::with(0, 2, 0, 2), 5, vec![Value(7)]), 2, true);
    ls.set_promise(promise_with_sync(Ballot::with(0, 1, 0, 3), 9, vec![Value(8)]), 3, true);
    assert_eq!(ls.get_max_promise_meta().pid, 2);
    let sync = ls.take_max_promise_sync().unwrap();
    assert_eq!(sync.suffix, vec![Value(7)]);
    assert_eq!(sync.sync_idx, 5);
    assert!(ls.take_max_promise_sync().is_none());
}

#[test]
fn unchecked_promise_does_not_move_max() {
    let peers: Vec<NodeId> = vec![1, 2];
    let mut ls = LeaderState::<Value>::with(Ballot::with(0, 3, 0, 1), &peers, Quorum::Majority(2));
    ls.set_promise(promise_with_sync(Ballot::with(0, 2, 0, 2), 5, vec![Value(1)]), 2, false);
    assert!(*ls.get_max_promise_meta() == PromiseMetaData::default());
    assert!(ls.take_max_promise_sync().is_none());
}

#[test]
fn quorum_counts_presence_of_promises() {
    let peers: Vec<NodeId> = vec![1, 2, 3];
    let mut ls = LeaderState::<Value>::with(Ballot::with(0, 3, 0, 1), &peers, Quorum::Majority(2));
    assert!(!ls.set_promise(promise(Ballot::with(0, 0, 0, 0), 0, 0), 2, true));
    assert!(ls.set_promise(promise(Ballot::with(0, 0, 0, 0), 0, 0), 3, true));
}

#[test]
fn promise_queries() {
    let peers: Vec<NodeId> = vec![1, 2, 3, 4];
    let mut ls = LeaderState::<Value>::with(Ballot::with(0, 3, 0, 1), &peers, Quorum::Majority(3));
    assert_eq!(ls.get_max_decided_idx(), 0);
    ls.set_promise(promise(Ballot::with(0, 2, 0, 2), 5, 4), 1, true);
    ls.set_promise(promise(Ballot::with(0, 2, 0, 2), 6, 9), 3, true);
    ls.set_promise(promise(Ballot::with(0, 1, 0, 2), 8, 2), 4, true);
    assert_eq!(ls.get_max_decided_idx(), 9);
    assert_eq!(ls.get_decided_idx(3), Some(9));
    assert_eq!(ls.get_decided_idx(2), None);
    assert_eq!(ls.get_promise_meta(4).accepted_idx, 8);
    assert_eq!(ls.get_promised_followers(), vec![3, 4]);
    ls.lost_promise(4);
    assert_eq!(ls.get_decided_idx(4), None);
    assert_eq!(ls.get_promised_followers(), vec![3]);
}

#[test]
fn chosen_needs_write_quorum() {
    let peers: Vec<NodeId> = vec![1, 2, 3, 4, 5];
    let mut ls = LeaderState::<Value>::with(Ballot::with(0, 1, 0, 1), &peers, Quorum::Majority(3));
    assert!(ls.is_chosen(0));
    assert!(!ls.is_chosen(1));
    ls.set_accepted_idx(1, 10);
    ls.set_accepted_idx(2, 10);
    assert!(!ls.is_chosen(10));
    ls.set_accepted_idx(3, 12);
    assert!(ls.is_chosen(10));
    assert!(!ls.is_chosen(11));
    ls.set_accepted_idx(4, 11);
    assert!(ls.is_chosen(10));
    assert!(!ls.is_chosen(11));
    ls.set_accepted_idx(5, 20);
    assert!(ls.is_chosen(11));
    assert!(!ls.is_chosen(13));
    assert_eq!(ls.get_accepted_idx(3), 12);
    assert_eq!(ls.get_accepted_idx(9), 0);
}

#[test]
fn repeated_acknowledgement_is_idempotent() {
    let peers: Vec<NodeId> = vec![1, 2, 3];
    let mut ls = LeaderState::<Value>::with(Ballot::with(0, 1, 0, 1), &peers, Quorum::Majority(2));
    ls.set_accepted_idx(1, 100);
    ls.set_accepted_idx(2, 100);
    let first = ls.is_chosen(100);
    ls.set_accepted_idx(2, 100);
    assert_eq!(ls.is_chosen(100), first);
    assert!(first);
}

#[test]
fn flexible_write_quorum_decides_chosen() {
    let peers: Vec<NodeId> = vec![1, 2, 3, 4];
    let q = Quorum::Flexible(omnipaxos::FlexibleQuorum { read_quorum_size: 3, write_quorum_size: 2 });
    let mut ls = LeaderState::<Value>::with(Ballot::with(0, 1, 0, 1), &peers, q);
    ls.set_accepted_idx(1, 4);
    assert!(!ls.is_chosen(4));
    ls.set_accepted_idx(2, 4);
    assert!(ls.is_chosen(4));
}

#[test]
fn sequence_numbers_per_peer() {
    let peers: Vec<NodeId> = vec![1, 2];
    let mut ls = LeaderState::<Value>::with(Ballot::with(0, 1, 0, 1), &peers, Quorum::Majority(2));
    assert_eq!(ls.get_seq_num(2), SequenceNumber { session: 0, counter: 0 });
    assert_eq!(ls.next_seq_num(2), SequenceNumber { session: 0, counter: 1 });
    assert_eq!(ls.next_seq_num(2), SequenceNumber { session: 0, counter: 2 });
    ls.increment_seq_num_session(2);
    assert_eq!(ls.get_seq_num(2), SequenceNumber { session: 1, counter: 0 });
    assert_eq!(ls.next_seq_num(2), SequenceNumber { session: 1, counter: 1 });
    assert_eq!(ls.next_seq_num(9), SequenceNumber { session: 0, counter: 1 });
    ls.increment_seq_num_session(7);
    assert_eq!(ls.get_seq_num(7), SequenceNumber { session: 0, counter: 0 });
}

#[test]
fn latest_accept_meta_tracking() {
    let peers: Vec<NodeId> = vec![1, 2];
    let n = Ballot::with(0, 4, 0, 1);
    let mut ls = LeaderState::<Value>::with(n, &peers, Quorum::Majority(2));
    assert_eq!(ls.get_latest_accept_meta(2), None);
    ls.set_latest_accept_meta(2, Some(17));
    assert_eq!(ls.get_latest_accept_meta(2), Some((n, 17)));
    ls.set_latest_accept_meta(1, Some(3));
    ls.reset_latest_accept_meta();
    assert_eq!(ls.get_latest_accept_meta(2), None);
    assert_eq!(ls.get_latest_accept_meta(1), None);
    ls.set_latest_accept_meta(1, Some(3));
    ls.set_latest_accept_meta(1, None);
    assert_eq!(ls.get_latest_accept_meta(1), None);
}

#[test]
fn promise_metadata_order() {
    let a = meta(Ballot::with(0, 2, 0, 1), 3, 0, 4);
    let b = meta(Ballot::with(0, 1, 0, 5), 10, 0, 2);
    let c = meta(Ballot::with(0, 1, 0, 5), 7, 0, 3);
    assert!(a > b);
    assert!(b > c);
    assert!(a > c);
    assert_eq!(b.partial_cmp(&a), Some(Ordering::Less));
    let same = meta(Ballot::with(0, 2, 0, 1), 3, 99, 4);
    assert!(a == same);
    assert_eq!(a.partial_cmp(&same), Some(Ordering::Equal));
    let other_pid = meta(Ballot::with(0, 2, 0, 1), 3, 0, 5);
    assert!(a != other_pid);
    assert_eq!(a.partial_cmp(&other_pid), Some(Ordering::Less));
    assert_eq!(other_pid.partial_cmp(&a), Some(Ordering::Less));
}

#[test]
fn ballot_order() {
    assert!(Ballot::with(0, 2, 0, 1).gt(&Ballot::with(0, 1, 0, 5)));
    assert!(!Ballot::with(0, 1, 0, 5).gt(&Ballot::with(0, 2, 0, 1)));
    assert!(Ballot::with(0, 1, 0, 5).gt(&Ballot::with(0, 1, 0, 3)));
    assert!(!Ballot::with(0, 1, 0, 3).gt(&Ballot::with(0, 1, 0, 3)));
    assert!(Ballot::with(1, 0, 0, 0).gt(&Ballot::with(0, 9, 9, 9)));
}

#[test]
fn fresh_state_has_no_followers_and_counts_new_peers() {
    let peers: Vec<NodeId> = vec![1, 2, 3];
    let mut ls = LeaderState::<Value>::with(Ballot::with(0, 1, 0, 1), &peers, Quorum::Majority(2));
    assert!(ls.get_promised_followers().is_empty());
    assert_eq!(ls.get_max_decided_idx(), 0);
    ls.set_accepted_idx(1, 5);
    assert!(!ls.is_chosen(5));
    ls.set_accepted_idx(9, 5);
    assert!(ls.is_chosen(5));
}
