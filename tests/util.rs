use omnipaxos::{
    ClusterConfig, Entry, FlexibleQuorum, LogEntry, LogicalClock, MessageStatus, Quorum,
    SequenceNumber, SnapshottedEntry, StopSign, VecLike,
};

#[derive(Debug, Clone, PartialEq)]
enum PromiseState {
    NotPromised,
    PromisedHigher,
    Promised(u64),
}

#[derive(Clone, Debug, PartialEq)]
struct Value(u64);

#[derive(Clone, Debug, PartialEq)]
struct Snap(u64);

impl Entry for Value {
    type Snapshot = Snap;
}

#[test]
fn test_vec_like_direct_deref_and_index() {
    let mut promises = VecLike::new(PromiseState::NotPromised, 1000);

    promises.set(123, PromiseState::Promised(77));
    promises.set(456, PromiseState::PromisedHigher);

    assert_eq!(*promises.index(123), PromiseState::Promised(77));
    assert_eq!(*promises.index(456), PromiseState::PromisedHigher);
    assert_eq!(*promises.index(789), PromiseState::NotPromised);

    assert_eq!(promises.allocated_count(), 2);

    assert!(promises.contains_key(123));
    assert_eq!(promises.get(123), Some(&PromiseState::Promised(77)));
}

#[test]
fn vec_like_bounds_and_default() {
    let mut v = VecLike::new(5u32, 3);
    assert_eq!(v.get(2), Some(&5));
    assert_eq!(v.get(3), None);
    assert!(!v.is_empty());
    v.set(2, 9);
    v.set(2, 11);
    assert_eq!(v.get(2), Some(&11));
    assert_eq!(v.allocated_count(), 1);
    assert!(!v.contains_key(0));
    let empty: VecLike<u32> = VecLike::default();
    assert!(empty.is_empty());
    assert_eq!(empty.get(0), None);
}

#[test]
fn quorum_with_majority_and_flexible() {
    assert_eq!(Quorum::with(None, 5), Quorum::Majority(3));
    assert_eq!(Quorum::with(None, 4), Quorum::Majority(3));
    assert_eq!(Quorum::with(None, 1), Quorum::Majority(1));
    let f = FlexibleQuorum { read_quorum_size: 4, write_quorum_size: 2 };
    assert_eq!(Quorum::with(Some(f), 5), Quorum::Flexible(f));
}

#[test]
fn quorum_thresholds_are_monotonic() {
    let m = Quorum::with(None, 5);
    assert!(!m.is_prepare_quorum(2));
    assert!(m.is_prepare_quorum(3));
    assert!(m.is_prepare_quorum(4));
    assert!(!m.is_accept_quorum(2));
    assert!(m.is_accept_quorum(5));
    let f = Quorum::Flexible(FlexibleQuorum { read_quorum_size: 4, write_quorum_size: 2 });
    assert!(!f.is_prepare_quorum(3));
    assert!(f.is_prepare_quorum(4));
    assert!(f.is_prepare_quorum(5));
    assert!(!f.is_accept_quorum(1));
    assert!(f.is_accept_quorum(2));
    assert!(f.is_accept_quorum(3));
}

#[test]
fn message_status_classification() {
    let last = SequenceNumber { session: 2, counter: 5 };
    assert!(last.check_msg_status(SequenceNumber { session: 2, counter: 6 }) == MessageStatus::Expected);
    assert!(last.check_msg_status(SequenceNumber { session: 2, counter: 5 }) == MessageStatus::Outdated);
    assert!(last.check_msg_status(SequenceNumber { session: 2, counter: 1 }) == MessageStatus::Outdated);
    assert!(last.check_msg_status(SequenceNumber { session: 1, counter: 9 }) == MessageStatus::Outdated);
    assert!(last.check_msg_status(SequenceNumber { session: 2, counter: 7 }) == MessageStatus::DroppedPreceding);
    assert!(last.check_msg_status(SequenceNumber { session: 3, counter: 5 }) == MessageStatus::DroppedPreceding);
    assert!(last.check_msg_status(SequenceNumber { session: 3, counter: 1 }) == MessageStatus::DroppedPreceding);
    let top = SequenceNumber { session: 0, counter: u64::MAX };
    assert!(top.check_msg_status(SequenceNumber { session: 1, counter: 0 }) == MessageStatus::DroppedPreceding);
}

#[test]
fn logical_clock_fires_every_timeout_ticks() {
    let mut clock = LogicalClock::with(3);
    let fired: Vec<bool> = (0..7).map(|_| clock.tick_and_check_timeout()).collect();
    assert_eq!(fired, vec![false, false, true, false, false, true, false]);
    let mut every = LogicalClock::with(1);
    assert!(every.tick_and_check_timeout());
    assert!(every.tick_and_check_timeout());
}

fn stopsign(id: u32, nodes: Vec<u64>, metadata: Option<Vec<u8>>) -> StopSign {
    StopSign {
        next_config: ClusterConfig { configuration_id: id, nodes, flexible_quorum: None },
        metadata,
    }
}

#[test]
fn log_entry_equality() {
    assert!(LogEntry::Decided(Value(1)) == LogEntry::Decided(Value(1)));
    assert!(LogEntry::Decided(Value(1)) != LogEntry::Decided(Value(2)));
    assert!(LogEntry::Decided(Value(1)) != LogEntry::Undecided(Value(1)));
    assert!(LogEntry::<Value>::Trimmed(4) == LogEntry::Trimmed(4));
    assert!(LogEntry::<Value>::Trimmed(4) != LogEntry::Trimmed(5));
    let s1 = LogEntry::<Value>::Snapshotted(SnapshottedEntry::with(3, Snap(8)));
    let s2 = LogEntry::<Value>::Snapshotted(SnapshottedEntry::with(3, Snap(8)));
    let s3 = LogEntry::<Value>::Snapshotted(SnapshottedEntry::with(3, Snap(9)));
    assert!(s1 == s2);
    assert!(s1 != s3);
    let a = LogEntry::<Value>::StopSign(stopsign(2, vec![1, 2, 3], None), true);
    let b = LogEntry::<Value>::StopSign(stopsign(2, vec![1, 2, 3], None), true);
    let c = LogEntry::<Value>::StopSign(stopsign(2, vec![1, 2, 3], None), false);
    let d = LogEntry::<Value>::StopSign(stopsign(2, vec![1, 2], None), true);
    let e = LogEntry::<Value>::StopSign(stopsign(2, vec![1, 2, 3], Some(vec![7])), true);
    assert!(a == b);
    assert!(a != c);
    assert!(a != d);
    assert!(a != e);
}

#[test]
fn stopsign_equality() {
    assert!(stopsign(1, vec![4, 5], Some(vec![1, 2])) == stopsign(1, vec![4, 5], Some(vec![1, 2])));
    assert!(stopsign(1, vec![4, 5], Some(vec![1, 2])) != stopsign(1, vec![4, 5], Some(vec![1, 3])));
    assert!(stopsign(1, vec![4, 5], None) != stopsign(2, vec![4, 5], None));
    let flex = StopSign {
        next_config: ClusterConfig {
            configuration_id: 1,
            nodes: vec![4, 5],
            flexible_quorum: Some(FlexibleQuorum { read_quorum_size: 2, write_quorum_size: 1 }),
        },
        metadata: None,
    };
    assert!(flex != stopsign(1, vec![4, 5], None));
    assert!(flex.clone() == flex);
}

#[test]
fn vec_like_allocated_count_grows_on_first_write_only() {
    let mut v = VecLike::new(0u8, 10);
    v.set(4, 1);
    assert_eq!(v.allocated_count(), 1);
    v.set(4, 2);
    assert_eq!(v.allocated_count(), 1);
    v.set(7, 3);
    assert_eq!(v.allocated_count(), 2);
    assert_eq!(*v.index(7), 3);
    assert_eq!(*v.index(5), 0);
}
