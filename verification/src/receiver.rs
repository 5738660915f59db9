//! The receiver's acknowledgment bookkeeping.
//!
//! On each ACK-timer tick the receiver sends an ACK whose `recvd_until` is
//! the receive window's base. The base only ever moves forward, and
//! `make_ack` demands no less of its caller, so the `recvd_until` values of
//! the ACKs that go out never step backward: each is at or ahead of the one
//! before it in the half-window order. Every ACK is remembered, bounded to
//! the newest 1024, so that a returning ACK2 can be turned into a
//! round-trip-time sample.

use crate::packet::AckControlInfo;
use crate::seq_number::SeqNumber;
use vstd::prelude::*;

verus! {

/// One ACK that went out: its ACK sequence number, when it left, and what
/// it acknowledged.
#[derive(Debug, Clone, Copy, PartialEq, Eq, Structural)]
pub struct AckRecord {
    pub ack_seq: i32,
    pub sent_at_us: i64,
    pub recvd_until: SeqNumber,
}

/// Most ACKs kept for ACK2 matching; the oldest beyond this are let go.
pub const ACK_HISTORY_BOUND: usize = 1024;

/// The receiver's ACK state: the last acknowledgment sent, the running ACK
/// sequence number, and the history an ACK2 is matched against.
pub struct AckState {
    last_recvd_until: SeqNumber,
    next_ack_seq: u32,
    ack_history: Vec<AckRecord>,
}

impl AckState {
    /// The `recvd_until` of the last ACK sent.
    pub closed spec fn spec_last(self) -> SeqNumber {
        self.last_recvd_until
    }

    /// The number the next ACK will carry.
    pub closed spec fn spec_next_ack_seq(self) -> u32 {
        self.next_ack_seq
    }

    /// The remembered ACKs, oldest first.
    pub closed spec fn spec_history(self) -> Seq<AckRecord> {
        self.ack_history@
    }

    pub open spec fn wf(self) -> bool {
        &&& self.spec_last().wf()
        &&& self.spec_history().len() <= ACK_HISTORY_BOUND as int
    }

    /// Fresh state: nothing acknowledged past the initial sequence number,
    /// the first ACK to carry number one.
    pub fn new(initial_seq: SeqNumber) -> (r: AckState)
        requires
            initial_seq.wf(),
        ensures
            r.wf(),
            r.spec_last() == initial_seq,
            r.spec_next_ack_seq() == 1,
            r.spec_history().len() == 0,
    {
        AckState { last_recvd_until: initial_seq, next_ack_seq: 1, ack_history: Vec::new() }
    }

    /// Builds the next ACK for the given window base and remembers it.
    ///
    /// The window base never moves backward, and this function asks the
    /// caller for exactly that; in return, the `recvd_until` it emits is
    /// never behind the one the previous ACK carried. Each ACK takes the
    /// next number of the running counter (reinterpreted signed for the
    /// wire's additional-info word), and the history keeps the newest 1024
    /// records, the oldest leaving when a new one arrives at the bound.
    pub fn make_ack(&mut self, buffer_base: SeqNumber, now_us: i64) -> (r: AckRecord)
        requires
            old(self).wf(),
            buffer_base.wf(),
            buffer_base.spec_dist(old(self).spec_last()) >= 0,
        ensures
            final(self).wf(),
            r.recvd_until == buffer_base,
            r.sent_at_us == now_us,
            r.ack_seq == old(self).spec_next_ack_seq() as i32,
            r.recvd_until.spec_dist(old(self).spec_last()) >= 0,
            final(self).spec_last() == r.recvd_until,
            final(self).spec_next_ack_seq() as int == (old(self).spec_next_ack_seq() + 1) % 0x1_0000_0000,
            final(self).spec_history() == (if old(self).spec_history().len() >= ACK_HISTORY_BOUND as int {
                old(self).spec_history().skip(1)
            } else {
                old(self).spec_history()
            }).push(r),
    {
        let ack_seq = self.next_ack_seq as i32;
        self.next_ack_seq = ((self.next_ack_seq as u64 + 1) % 0x1_0000_0000u64) as u32;
        let record = AckRecord { ack_seq, sent_at_us: now_us, recvd_until: buffer_base };
        if self.ack_history.len() >= ACK_HISTORY_BOUND {
            self.ack_history.remove(0);
            proof {
                assert(self.ack_history@ =~= old(self).spec_history().skip(1));
            }
        }
        self.ack_history.push(record);
        self.last_recvd_until = buffer_base;
        record
    }

    /// Matches a returning ACK2 against the history and gives the
    /// round-trip-time sample it implies: now less the matched ACK's send
    /// time. Nothing changes when no remembered ACK carries that number.
    pub fn on_ack2(&self, ack_seq: i32, now_us: i64) -> (r: Option<i64>)
        requires
            self.wf(),
            -0x2000_0000_0000_0000 < now_us < 0x2000_0000_0000_0000,
            forall|k: int|
                0 <= k < self.spec_history().len() ==> -0x2000_0000_0000_0000 < (
                #[trigger] self.spec_history()[k]).sent_at_us < 0x2000_0000_0000_0000,
        ensures
            match r {
                Some(sample) => exists|k: int|
                    0 <= k < self.spec_history().len() && (#[trigger] self.spec_history()[k]).ack_seq
                        == ack_seq && sample == now_us - self.spec_history()[k].sent_at_us,
                None => forall|k: int|
                    0 <= k < self.spec_history().len() ==> (#[trigger] self.spec_history()[k]).ack_seq
                        != ack_seq,
            },
    {
        let n = self.ack_history.len();
        let mut k: usize = 0;
        while k < n
            invariant
                self.wf(),
                n == self.spec_history().len(),
                k <= n,
                -0x2000_0000_0000_0000 < now_us < 0x2000_0000_0000_0000,
                forall|q: int|
                    0 <= q < n ==> -0x2000_0000_0000_0000 < (
                    #[trigger] self.spec_history()[q]).sent_at_us < 0x2000_0000_0000_0000,
                forall|q: int|
                    0 <= q < k ==> (#[trigger] self.spec_history()[q]).ack_seq != ack_seq,
            decreases n - k,
        {
            if self.ack_history[k].ack_seq == ack_seq {
                return Some(now_us - self.ack_history[k].sent_at_us);
            }
            k = k + 1;
        }
        None
    }
}

/// Largest time value the estimators work with: about 35 years of
/// microseconds, room enough that the smoothing arithmetic cannot overflow.
pub const ESTIMATOR_TIME_BOUND_US: i64 = 0x4_0000_0000_0000;

/// Receive-rate and link-capacity estimation from packet arrivals.
///
/// The mean inter-arrival gap is smoothed seven parts old, one part new,
/// over every arrival; the receive rate is one second over that mean. Link
/// capacity comes from probe pairs: the sender emits packets whose sequence
/// numbers are 0 and 1 modulo 16 back to back, so the pair's arrival gap
/// measures the bottleneck, smoothed the same way.
pub struct RateEstimator {
    last_arrival_us: i64,
    have_arrival: bool,
    mean_interval_us: i64,
    probe_start_us: i64,
    have_probe: bool,
    mean_probe_interval_us: i64,
}

impl RateEstimator {
    /// When the previous packet arrived.
    pub closed spec fn spec_last_arrival(self) -> i64 {
        self.last_arrival_us
    }

    /// Whether any packet has arrived yet.
    pub closed spec fn spec_have_arrival(self) -> bool {
        self.have_arrival
    }

    /// The smoothed gap between arrivals, microseconds.
    pub closed spec fn spec_mean_interval(self) -> i64 {
        self.mean_interval_us
    }

    /// When the open probe pair's first packet arrived.
    pub closed spec fn spec_probe_start(self) -> i64 {
        self.probe_start_us
    }

    /// Whether a probe pair is open: its first packet seen, its second not.
    pub closed spec fn spec_have_probe(self) -> bool {
        self.have_probe
    }

    /// The smoothed gap within probe pairs, microseconds.
    pub closed spec fn spec_mean_probe_interval(self) -> i64 {
        self.mean_probe_interval_us
    }

    pub open spec fn wf(self) -> bool {
        &&& 0 <= self.spec_last_arrival() < ESTIMATOR_TIME_BOUND_US
        &&& 0 <= self.spec_mean_interval() < ESTIMATOR_TIME_BOUND_US
        &&& 0 <= self.spec_probe_start() < ESTIMATOR_TIME_BOUND_US
        &&& 0 <= self.spec_mean_probe_interval() < ESTIMATOR_TIME_BOUND_US
    }

    /// A fresh estimator: nothing measured yet.
    pub fn new() -> (r: RateEstimator)
        ensures
            r.wf(),
            !r.spec_have_arrival(),
            !r.spec_have_probe(),
            r.spec_mean_interval() == 0,
            r.spec_mean_probe_interval() == 0,
    {
        RateEstimator {
            last_arrival_us: 0,
            have_arrival: false,
            mean_interval_us: 0,
            probe_start_us: 0,
            have_probe: false,
            mean_probe_interval_us: 0,
        }
    }

    /// A packet arrived: fold its gap from the previous arrival into the
    /// inter-arrival mean, and track probe pairs by sequence number — the
    /// first of a pair opens it, the second closes it into the probe mean.
    /// A clock that stepped backward contributes nothing.
    pub fn on_arrival(&mut self, seq: SeqNumber, now_us: i64)
        requires
            old(self).wf(),
            0 <= now_us < ESTIMATOR_TIME_BOUND_US,
        ensures
            final(self).wf(),
            final(self).spec_mean_interval() == (if old(self).spec_have_arrival() && now_us >= old(
                self,
            ).spec_last_arrival() {
                (7 * old(self).spec_mean_interval() + (now_us - old(self).spec_last_arrival())) / 8
            } else {
                old(self).spec_mean_interval() as int
            }),
            final(self).spec_last_arrival() == now_us,
            final(self).spec_have_arrival(),
            final(self).spec_probe_start() == (if seq.0 % 16 == 0 {
                now_us
            } else {
                old(self).spec_probe_start()
            }),
            final(self).spec_have_probe() == (if seq.0 % 16 == 0 {
                true
            } else if seq.0 % 16 == 1 {
                false
            } else {
                old(self).spec_have_probe()
            }),
            final(self).spec_mean_probe_interval() == (if seq.0 % 16 == 1 && old(
                self,
            ).spec_have_probe() && now_us >= old(self).spec_probe_start() {
                (7 * old(self).spec_mean_probe_interval() + (now_us - old(
                    self,
                ).spec_probe_start())) / 8
            } else {
                old(self).spec_mean_probe_interval() as int
            }),
    {
        if self.have_arrival && now_us >= self.last_arrival_us {
            self.mean_interval_us = (7 * self.mean_interval_us + (now_us - self.last_arrival_us))
                / 8;
        }
        self.last_arrival_us = now_us;
        self.have_arrival = true;
        if seq.0 % 16 == 0 {
            self.probe_start_us = now_us;
            self.have_probe = true;
        } else if seq.0 % 16 == 1 {
            if self.have_probe && now_us >= self.probe_start_us {
                self.mean_probe_interval_us = (7 * self.mean_probe_interval_us + (now_us
                    - self.probe_start_us)) / 8;
            }
            self.have_probe = false;
        }
    }

    /// The receive rate, packets per second: one second over the mean gap;
    /// zero while nothing is measured.
    pub fn recv_rate_pps(&self) -> (r: i64)
        requires
            self.wf(),
        ensures
            r == (if self.spec_mean_interval() > 0 {
                1_000_000 as int / self.spec_mean_interval() as int
            } else {
                0 as int
            }),
    {
        if self.mean_interval_us > 0 {
            1_000_000i64 / self.mean_interval_us
        } else {
            0
        }
    }

    /// The estimated link capacity, packets per second: one second over the
    /// mean probe-pair gap; zero while no pair has been measured.
    pub fn est_link_cap_pps(&self) -> (r: i64)
        requires
            self.wf(),
        ensures
            r == (if self.spec_mean_probe_interval() > 0 {
                1_000_000 as int / self.spec_mean_probe_interval() as int
            } else {
                0 as int
            }),
    {
        if self.mean_probe_interval_us > 0 {
            1_000_000i64 / self.mean_probe_interval_us
        } else {
            0
        }
    }
}

/// A value fitted into the signed 32-bit word an ACK body carries.
pub open spec fn spec_ack_word(v: i64) -> i32 {
    if v > 0x7fff_ffff {
        0x7fff_ffffi32
    } else if v < 0 {
        0i32
    } else {
        v as i32
    }
}

/// Fits a nonnegative measurement into an ACK body word, saturating at the
/// word's top.
pub fn ack_word(v: i64) -> (r: i32)
    ensures
        r == spec_ack_word(v),
{
    if v > 0x7fff_ffff {
        0x7fff_ffffi32
    } else if v < 0 {
        0i32
    } else {
        v as i32
    }
}

/// The body of a light ACK: the window base alone, every optional field
/// absent.
pub fn light_ack_body(recvd_until: i32) -> (r: AckControlInfo)
    ensures
        r.recvd_until == recvd_until,
        r.rtt is None,
        r.rtt_variance is None,
        r.buffer_available is None,
        r.packet_recv_rate is None,
        r.est_link_cap is None,
{
    AckControlInfo {
        recvd_until,
        rtt: None,
        rtt_variance: None,
        buffer_available: None,
        packet_recv_rate: None,
        est_link_cap: None,
    }
}

/// The body of a full ACK: the window base and all five measurements, each
/// fitted into its word.
pub fn full_ack_body(
    recvd_until: i32,
    rtt_us: i64,
    rtt_var_us: i64,
    buffer_available: i32,
    recv_rate_pps: i64,
    est_link_cap_pps: i64,
) -> (r: AckControlInfo)
    ensures
        r.recvd_until == recvd_until,
        r.rtt == Some(spec_ack_word(rtt_us)),
        r.rtt_variance == Some(spec_ack_word(rtt_var_us)),
        r.buffer_available == Some(buffer_available),
        r.packet_recv_rate == Some(spec_ack_word(recv_rate_pps)),
        r.est_link_cap == Some(spec_ack_word(est_link_cap_pps)),
{
    AckControlInfo {
        recvd_until,
        rtt: Some(ack_word(rtt_us)),
        rtt_variance: Some(ack_word(rtt_var_us)),
        buffer_available: Some(buffer_available),
        packet_recv_rate: Some(ack_word(recv_rate_pps)),
        est_link_cap: Some(ack_word(est_link_cap_pps)),
    }
}


/// One hole the receiver knows of: the missing sequence number, when
/// feedback about it last went out, and how many times it has gone out.
#[derive(Debug, Clone, Copy, PartialEq, Eq, Structural)]
pub struct LossEntry {
    pub seq: SeqNumber,
    pub last_feedback_us: i64,
    pub k: u32,
}

/// The receiver's loss list, driving periodic NAK feedback: a hole enters
/// when a gap is detected, is reported again whenever the feedback interval
/// has passed since it was last named, and leaves when its packet arrives
/// or the window moves past it.
pub struct ReceiverLossList {
    entries: Vec<LossEntry>,
}

impl ReceiverLossList {
    /// The known holes, oldest detection first.
    pub closed spec fn spec_entries(self) -> Seq<LossEntry> {
        self.entries@
    }

    pub open spec fn wf(self) -> bool {
        forall|i: int|
            0 <= i < self.spec_entries().len() ==> (#[trigger] self.spec_entries()[i]).seq.wf() && 1
                <= self.spec_entries()[i].k && 0 <= self.spec_entries()[i].last_feedback_us
                < ESTIMATOR_TIME_BOUND_US
    }

    pub fn new() -> (r: ReceiverLossList)
        ensures
            r.wf(),
            r.spec_entries().len() == 0,
    {
        ReceiverLossList { entries: Vec::new() }
    }

    /// Newly detected holes enter with their first feedback counted: the
    /// detection itself rides the next NAK out.
    pub fn register(&mut self, seqs: &Vec<SeqNumber>, now_us: i64)
        requires
            old(self).wf(),
            forall|i: int| 0 <= i < seqs@.len() ==> (#[trigger] seqs@[i]).wf(),
            0 <= now_us < ESTIMATOR_TIME_BOUND_US,
        ensures
            final(self).wf(),
            final(self).spec_entries() == old(self).spec_entries() + seqs@.map_values(
                (|q: SeqNumber| LossEntry { seq: q, last_feedback_us: now_us, k: 1u32 }),
            ),
    {
        let ghost f = (|q: SeqNumber| LossEntry { seq: q, last_feedback_us: now_us, k: 1u32 });
        let n = seqs.len();
        let mut i: usize = 0;
        proof {
            assert(self.entries@ =~= old(self).spec_entries() + seqs@.take(0).map_values(f));
        }
        while i < n
            invariant
                old(self).wf(),
                forall|q: int| 0 <= q < seqs@.len() ==> (#[trigger] seqs@[q]).wf(),
                0 <= now_us < ESTIMATOR_TIME_BOUND_US,
                n == seqs@.len(),
                i <= n,
                f == (|q: SeqNumber| LossEntry { seq: q, last_feedback_us: now_us, k: 1u32 }),
                self.entries@ == old(self).spec_entries() + seqs@.take(i as int).map_values(f),
            decreases n - i,
        {
            self.entries.push(LossEntry { seq: seqs[i], last_feedback_us: now_us, k: 1 });
            proof {
                assert(self.entries@ =~= old(self).spec_entries() + seqs@.take(
                    i + 1 as int,
                ).map_values(f));
            }
            i = i + 1;
        }
        proof {
            assert(seqs@.take(n as int) =~= seqs@);
            assert forall|q: int| 0 <= q < self.entries@.len() implies (
            #[trigger] self.entries@[q]).seq.wf() && 1 <= self.entries@[q].k && 0
                <= self.entries@[q].last_feedback_us < ESTIMATOR_TIME_BOUND_US by {
                if q >= old(self).spec_entries().len() {
                    let t = q - old(self).spec_entries().len();
                    assert(self.entries@[q] == f(seqs@[t]));
                }
            }
        }
    }

    /// The hole closed: its packet arrived, so its entry leaves the list.
    pub fn on_arrival(&mut self, seq: SeqNumber)
        requires
            old(self).wf(),
        ensures
            final(self).wf(),
            final(self).spec_entries() == old(self).spec_entries().filter(
                (|e: LossEntry| e.seq != seq),
            ),
    {
        let ghost pred = (|e: LossEntry| e.seq != seq);
        let n = self.entries.len();
        let mut kept: Vec<LossEntry> = Vec::new();
        let mut i: usize = 0;
        proof {
            reveal(Seq::filter);
            assert(old(self).spec_entries().take(0) =~= Seq::<LossEntry>::empty());
        }
        while i < n
            invariant
                old(self).wf(),
                self.entries@ == old(self).spec_entries(),
                n == old(self).spec_entries().len(),
                i <= n,
                kept@ == old(self).spec_entries().take(i as int).filter(pred),
                pred == (|e: LossEntry| e.seq != seq),
                forall|q: int|
                    0 <= q < kept@.len() ==> (#[trigger] kept@[q]).seq.wf() && 1 <= kept@[q].k && 0
                        <= kept@[q].last_feedback_us < ESTIMATOR_TIME_BOUND_US,
            decreases n - i,
        {
            proof {
                reveal(Seq::filter);
                let pre = old(self).spec_entries().take(i as int);
                let now = old(self).spec_entries().take(i + 1 as int);
                assert(now.drop_last() =~= pre);
                assert(now.last() == old(self).spec_entries()[i as int]);
            }
            if self.entries[i].seq.0 != seq.0 {
                proof {
                    assert(self.entries@[i as int].seq != seq);
                }
                kept.push(self.entries[i]);
            } else {
                proof {
                    assert(self.entries@[i as int].seq == seq);
                }
            }
            i = i + 1;
        }
        proof {
            assert(old(self).spec_entries().take(n as int) =~= old(self).spec_entries());
        }
        self.entries = kept;
    }

    /// Which holes are due another report: those whose last feedback is at
    /// least `interval_us` old. Each one named has its counter stepped and
    /// its clock set to now; the rest stand untouched.
    pub fn feedback_due(&mut self, now_us: i64, interval_us: i64) -> (r: Vec<SeqNumber>)
        requires
            old(self).wf(),
            0 <= now_us < ESTIMATOR_TIME_BOUND_US,
            0 <= interval_us,
        ensures
            final(self).wf(),
            final(self).spec_entries().len() == old(self).spec_entries().len(),
            forall|i: int|
                0 <= i < old(self).spec_entries().len() ==> #[trigger] final(self).spec_entries()[i]
                    == (if now_us - old(self).spec_entries()[i].last_feedback_us >= interval_us {
                    LossEntry {
                        seq: old(self).spec_entries()[i].seq,
                        last_feedback_us: now_us,
                        k: (if old(self).spec_entries()[i].k < 0xffff_ffffu32 {
                            (old(self).spec_entries()[i].k + 1) as u32
                        } else {
                            old(self).spec_entries()[i].k
                        }),
                    }
                } else {
                    old(self).spec_entries()[i]
                }),
            r@ == old(self).spec_entries().filter(
                (|e: LossEntry| now_us - e.last_feedback_us >= interval_us),
            ).map_values((|e: LossEntry| e.seq)),
    {
        let ghost due = (|e: LossEntry| now_us - e.last_feedback_us >= interval_us);
        let n = self.entries.len();
        let mut out: Vec<SeqNumber> = Vec::new();
        let mut i: usize = 0;
        proof {
            reveal(Seq::filter);
            assert(old(self).spec_entries().take(0) =~= Seq::<LossEntry>::empty());
            assert(out@ =~= old(self).spec_entries().take(0).filter(due).map_values(
                (|e: LossEntry| e.seq),
            ));
        }
        while i < n
            invariant
                old(self).wf(),
                0 <= now_us < ESTIMATOR_TIME_BOUND_US,
                0 <= interval_us,
                n == old(self).spec_entries().len(),
                self.entries@.len() == n,
                i <= n,
                due == (|e: LossEntry| now_us - e.last_feedback_us >= interval_us),
                forall|q: int| i <= q < n ==> #[trigger] self.entries@[q] == old(self).spec_entries()[q],
                forall|q: int|
                    0 <= q < i ==> #[trigger] self.entries@[q] == (if now_us - old(
                        self,
                    ).spec_entries()[q].last_feedback_us >= interval_us {
                        LossEntry {
                            seq: old(self).spec_entries()[q].seq,
                            last_feedback_us: now_us,
                            k: (if old(self).spec_entries()[q].k < 0xffff_ffffu32 {
                                (old(self).spec_entries()[q].k + 1) as u32
                            } else {
                                old(self).spec_entries()[q].k
                            }),
                        }
                    } else {
                        old(self).spec_entries()[q]
                    }),
                out@ == old(self).spec_entries().take(i as int).filter(due).map_values(
                    (|e: LossEntry| e.seq),
                ),
            decreases n - i,
        {
            proof {
                reveal(Seq::filter);
                let pre = old(self).spec_entries().take(i as int);
                let now = old(self).spec_entries().take(i + 1 as int);
                assert(now.drop_last() =~= pre);
                assert(now.last() == old(self).spec_entries()[i as int]);
            }
            let e = self.entries[i];
            if now_us - e.last_feedback_us >= interval_us {
                out.push(e.seq);
                let stepped = if e.k < 0xffff_ffff {
                    e.k + 1
                } else {
                    e.k
                };
                self.entries[i] = LossEntry { seq: e.seq, last_feedback_us: now_us, k: stepped };
                proof {
                    assert(out@ =~= old(self).spec_entries().take(i + 1 as int).filter(
                        due,
                    ).map_values((|e: LossEntry| e.seq)));
                }
            } else {
                proof {
                    assert(out@ =~= old(self).spec_entries().take(i + 1 as int).filter(
                        due,
                    ).map_values((|e: LossEntry| e.seq)));
                }
            }
            i = i + 1;
        }
        proof {
            assert(old(self).spec_entries().take(n as int) =~= old(self).spec_entries());
        }
        out
    }
}


/// One smoothing step of the round-trip-time estimate: seven parts the old
/// value, one part the new sample.
pub fn smooth_rtt(rtt_us: i64, sample_us: i64) -> (r: i64)
    requires
        0 <= rtt_us < 0x1000_0000_0000_0000,
        0 <= sample_us < 0x1000_0000_0000_0000,
    ensures
        r == (7 * rtt_us + sample_us) / 8,
{
    (7 * rtt_us + sample_us) / 8
}

/// One smoothing step of the round-trip-time variance: three parts the old
/// value, one part the sample's distance from the current estimate.
pub fn smooth_rtt_variance(rtt_var_us: i64, rtt_us: i64, sample_us: i64) -> (r: i64)
    requires
        0 <= rtt_var_us < 0x1000_0000_0000_0000,
        0 <= rtt_us < 0x1000_0000_0000_0000,
        0 <= sample_us < 0x1000_0000_0000_0000,
    ensures
        r == (3 * rtt_var_us + (if sample_us >= rtt_us {
            sample_us - rtt_us
        } else {
            rtt_us - sample_us
        })) / 4,
{
    let gap = if sample_us >= rtt_us {
        sample_us - rtt_us
    } else {
        rtt_us - sample_us
    };
    (3 * rtt_var_us + gap) / 4
}

} // verus!
