use vstd::prelude::*;

verus! {

/// Used for checking the ordering of message sequences in the accept phase.
#[derive(Copy, Clone, Debug, PartialEq, Eq, Structural)]
pub enum MessageStatus {
    /// Expected message sequence progression.
    Expected,
    /// Identified a message sequence break.
    DroppedPreceding,
    /// An already identified message sequence break.
    Outdated,
}

/// Keeps track of the ordering of messages in the accept phase.
#[derive(Copy, Clone, Debug, Default, PartialEq, Eq, Structural, PartialOrd, Ord, Hash)]
pub struct SequenceNumber {
    /// Meant to refer to a TCP session.
    pub session: u64,
    /// The sequence number with respect to a session.
    pub counter: u64,
}

impl SequenceNumber {
    /// Lexicographic order on `(session, counter)`.
    pub open spec fn spec_le(self, other: SequenceNumber) -> bool {
        self.session < other.session || (self.session == other.session && self.counter
            <= other.counter)
    }

    /// The status of an incoming message, given the last number received.
    pub open spec fn spec_msg_status(self, msg: SequenceNumber) -> MessageStatus {
        if msg.session == self.session && msg.counter == self.counter + 1 {
            MessageStatus::Expected
        } else if msg.spec_le(self) {
            MessageStatus::Outdated
        } else {
            MessageStatus::DroppedPreceding
        }
    }

    pub fn new(session: u64, counter: u64) -> (r: SequenceNumber)
        ensures
            r == (SequenceNumber { session, counter }),
    {
        SequenceNumber { session, counter }
    }

    /// Compares this sequence number with the sequence number of an incoming message.
    pub fn check_msg_status(&self, msg_seq_num: SequenceNumber) -> (r: MessageStatus)
        ensures
            r == self.spec_msg_status(msg_seq_num),
    {
        if msg_seq_num.session == self.session && self.counter < u64::MAX && msg_seq_num.counter
            == self.counter + 1 {
            MessageStatus::Expected
        } else if msg_seq_num.session < self.session || (msg_seq_num.session == self.session
            && msg_seq_num.counter <= self.counter) {
            MessageStatus::Outdated
        } else {
            MessageStatus::DroppedPreceding
        }
    }
}

/// The classification of incoming sequence numbers: the next counter of the same session
/// is expected, anything at or before the last number is outdated, and a gap within the
/// session or a later session means preceding messages were dropped.
pub proof fn lemma_msg_status_cases(last: SequenceNumber, msg: SequenceNumber)
    ensures
        msg.session == last.session && msg.counter == last.counter + 1 ==> last.spec_msg_status(
            msg,
        ) == MessageStatus::Expected,
        msg.spec_le(last) ==> last.spec_msg_status(msg) == MessageStatus::Outdated,
        msg.session == last.session && msg.counter == last.counter + 2
            ==> last.spec_msg_status(msg) == MessageStatus::DroppedPreceding,
        msg.session == last.session + 1 ==> last.spec_msg_status(msg)
            == MessageStatus::DroppedPreceding,
{
}

/// A tick-driven countdown that fires once every `timeout` ticks.
pub struct LogicalClock {
    time: u64,
    timeout: u64,
}

impl LogicalClock {
    /// Ticks since the clock last fired.
    pub closed spec fn time(&self) -> nat {
        self.time as nat
    }

    /// The number of ticks between two firings.
    pub closed spec fn timeout(&self) -> nat {
        self.timeout as nat
    }

    /// A clock with a positive timeout never counts up to it without firing.
    pub closed spec fn wf(&self) -> bool {
        self.timeout > 0 ==> self.time < self.timeout
    }

    pub fn with(timeout: u64) -> (r: Self)
        ensures
            r.time() == 0,
            r.timeout() == timeout,
            r.wf(),
            r.timeout() > 0 ==> r.time() < r.timeout(),
    {
        LogicalClock { time: 0, timeout }
    }

    /// Advances the clock by one tick; fires and restarts when the timeout is reached.
    pub fn tick_and_check_timeout(&mut self) -> (r: bool)
        requires
            old(self).wf(),
            old(self).time() < u64::MAX,
        ensures
            final(self).wf(),
            final(self).timeout() > 0 ==> final(self).time() < final(self).timeout(),
            final(self).timeout() == old(self).timeout(),
            r == (old(self).time() + 1 == old(self).timeout()),
            final(self).time() == if r {
                0
            } else {
                old(self).time() + 1
            },
    {
        self.time = self.time + 1;
        if self.time == self.timeout {
            self.time = 0;
            true
        } else {
            false
        }
    }
}

/// Starting from a fresh clock with timeout `t > 0`, after `k` ticks the clock holds
/// `k % t`, and the `(k + 1)`-th tick fires exactly when `k + 1` is a multiple of `t`; in
/// particular no tick fires before the `t`-th.
pub proof fn lemma_clock_period(t: nat, k: nat)
    requires
        t > 0,
    ensures
        (k % t) + 1 == t <==> (k + 1) % t == 0,
        (if (k % t) + 1 == t {
            0
        } else {
            (k % t) + 1
        }) == (k + 1) % t,
        k % t < t,
{
    let q: int = k as int / t as int;
    let m: int = k as int % t as int;
    vstd::arithmetic::div_mod::lemma_fundamental_div_mod(k as int, t as int);
    vstd::arithmetic::div_mod::lemma_mod_bound(k as int, t as int);
    if m + 1 == t {
        assert((k + 1) as int == (q + 1) * t) by (nonlinear_arith)
            requires
                k as int == t * q + m,
                m + 1 == t,
        ;
        vstd::arithmetic::div_mod::lemma_fundamental_div_mod_converse((k + 1) as int, t as int, q + 1, 0);
    } else {
        assert((k + 1) as int == q * t + (m + 1)) by (nonlinear_arith)
            requires
                k as int == t * q + m,
        ;
        vstd::arithmetic::div_mod::lemma_fundamental_div_mod_converse((k + 1) as int, t as int, q, m + 1);
    }
}

} // verus!
