//! The sender's side of message handling: cutting an application message
//! into data packets.
//!
//! A message of `L` bytes travels as `⌈L / (MSS − 16)⌉` packets — the 16
//! bytes are the data packet header — with consecutive sequence numbers,
//! one message number, and the FF bits telling first, middle, last, or only
//! apart. Every packet but the last is full; the concatenation of the
//! payloads is the message, byte for byte.

use crate::msg_number::MsgNumber;
use crate::packet::{DataPacket, PacketLocation};
use crate::recv_buffer::spec_due;
use crate::seq_number::{lemma_seq_step_dist, SeqNumber};
use crate::SocketID;
use vstd::prelude::*;
use vstd::slice::{slice_subrange, slice_to_vec};

verus! {

/// The bytes of a packet run, in order.
pub open spec fn spec_segments_bytes(s: Seq<DataPacket>) -> Seq<u8>
    decreases s.len(),
{
    if s.len() == 0 {
        Seq::<u8>::empty()
    } else {
        s[0].payload@ + spec_segments_bytes(s.skip(1))
    }
}

/// One step of `spec_segments_bytes` along a prefix.
proof fn lemma_segments_bytes_snoc(s: Seq<DataPacket>, p: DataPacket)
    ensures
        spec_segments_bytes(s.push(p)) == spec_segments_bytes(s) + p.payload@,
    decreases s.len(),
{
    if s.len() == 0 {
        assert(s.push(p)[0] == p);
        assert(s.push(p).skip(1) =~= Seq::<DataPacket>::empty());
        assert(spec_segments_bytes(Seq::<DataPacket>::empty()) =~= Seq::<u8>::empty());
        assert(spec_segments_bytes(s.push(p)) =~= p.payload@);
        assert(spec_segments_bytes(s) + p.payload@ =~= p.payload@);
    } else {
        lemma_segments_bytes_snoc(s.skip(1), p);
        assert(s.push(p)[0] == s[0]);
        assert(s.push(p).skip(1) =~= s.skip(1).push(p));
        assert(spec_segments_bytes(s) + p.payload@ =~= s[0].payload@ + (spec_segments_bytes(
            s.skip(1),
        ) + p.payload@));
    }
}

/// Cuts one application message into its data packets.
///
/// Sequence numbers run consecutively from `next_seq`; every packet carries
/// `next_msg`, the timestamp, the destination, and the ordering flag; all
/// packets but the last carry exactly `max_packet_size - 16` bytes and the
/// last carries the nonempty remainder; the FF bits mark the lone packet of
/// a short message as Only and otherwise the run as First, Middle..., Last.
pub fn segment_message(
    payload: &[u8],
    next_seq: SeqNumber,
    next_msg: MsgNumber,
    max_packet_size: usize,
    in_order: bool,
    timestamp: i32,
    dest_sockid: SocketID,
) -> (r: Vec<DataPacket>)
    requires
        next_seq.wf(),
        next_msg.wf(),
        17 <= max_packet_size,
        1 <= payload@.len() < 0x4000_0000,
    ensures
        ({
            let budget = max_packet_size - 16;
            let n = r@.len() as int;
            &&& n >= 1
            &&& spec_segments_bytes(r@) == payload@
            &&& forall|i: int|
                0 <= i < n ==> (#[trigger] r@[i]).seq_number == next_seq.spec_step(i)
                    && r@[i].seq_number.wf() && r@[i].message_number == next_msg
                    && r@[i].timestamp == timestamp && r@[i].dest_sockid == dest_sockid
                    && r@[i].in_order_delivery == in_order
            &&& forall|i: int| 0 <= i < n ==> 1 <= (#[trigger] r@[i]).payload@.len() <= budget
            &&& forall|i: int| 0 <= i < n - 1 ==> (#[trigger] r@[i]).payload@.len() == budget
            &&& r@[0].message_loc == (if n == 1 {
                PacketLocation::Only
            } else {
                PacketLocation::First
            })
            &&& forall|i: int|
                0 < i < n - 1 ==> (#[trigger] r@[i]).message_loc == PacketLocation::Middle
            &&& n >= 2 ==> r@[n - 1].message_loc == PacketLocation::Last
        }),
{
    let budget = max_packet_size - 16;
    let len = payload.len();
    let mut out: Vec<DataPacket> = Vec::new();
    let mut start: usize = 0;
    proof {
        assert(payload@.take(0) =~= Seq::<u8>::empty());
    }
    while start < len
        invariant
            next_seq.wf(),
            next_msg.wf(),
            1 <= budget,
            len == payload@.len() < 0x4000_0000,
            start <= len,
            out@.len() <= start,
            spec_segments_bytes(out@) == payload@.take(start as int),
            start == len ==> out@.len() >= 1,
            forall|i: int|
                0 <= i < out@.len() ==> (#[trigger] out@[i]).seq_number == next_seq.spec_step(i)
                    && out@[i].seq_number.wf() && out@[i].message_number == next_msg
                    && out@[i].timestamp == timestamp && out@[i].dest_sockid == dest_sockid
                    && out@[i].in_order_delivery == in_order,
            forall|i: int| 0 <= i < out@.len() ==> 1 <= (#[trigger] out@[i]).payload@.len() <= budget,
            forall|i: int|
                0 <= i < out@.len() && (i + 1 < out@.len() || start < len) ==> (
                #[trigger] out@[i]).payload@.len() == budget,
            out@.len() >= 1 ==> out@[0].message_loc == (if out@.len() == 1 && start == len {
                PacketLocation::Only
            } else {
                PacketLocation::First
            }),
            forall|i: int|
                0 < i < out@.len() - 1 ==> (#[trigger] out@[i]).message_loc
                    == PacketLocation::Middle,
            out@.len() >= 2 ==> out@[out@.len() - 1].message_loc == (if start == len {
                PacketLocation::Last
            } else {
                PacketLocation::Middle
            }),
        decreases len - start,
    {
        let remaining = len - start;
        let chunk = if remaining <= budget {
            remaining
        } else {
            budget
        };
        let end = start + chunk;
        let is_first = start == 0;
        let is_last = end == len;
        let message_loc = if is_first && is_last {
            PacketLocation::Only
        } else if is_first {
            PacketLocation::First
        } else if is_last {
            PacketLocation::Last
        } else {
            PacketLocation::Middle
        };
        let seq_number = next_seq.wrapping_add(out.len() as u32);
        proof {
            lemma_seq_step_dist(next_seq, out@.len() as int);
        }
        let piece = slice_to_vec(slice_subrange(payload, start, end));
        let ghost before = out@;
        let packet = DataPacket {
            seq_number,
            message_loc,
            in_order_delivery: in_order,
            message_number: next_msg,
            timestamp,
            dest_sockid,
            payload: piece,
        };
        out.push(packet);
        proof {
            lemma_segments_bytes_snoc(before, packet);
            assert(payload@.take(start as int) + payload@.subrange(start as int, end as int)
                =~= payload@.take(end as int));
        }
        start = end;
    }
    proof {
        assert(payload@.take(len as int) =~= payload@);
    }
    out
}


/// What the pacer should put on the wire next.
#[derive(Debug, Clone, PartialEq, Eq)]
pub enum SendChoice {
    /// A packet the peer reported lost, sent again; losses go first, in the
    /// order they were reported.
    Retransmit(DataPacket),
    /// A packet never sent before; only while the window has room.
    Fresh(DataPacket),
    /// The oldest loss report named a packet no longer in flight — an
    /// acknowledgment overtook it. The report is discarded; ask again.
    Stale(SeqNumber),
    /// Nothing eligible: no losses, and the window is full or the queue is
    /// empty.
    Wait,
}

/// An owned copy of a packet, for retransmission.
fn duplicate_packet(p: &DataPacket) -> (r: DataPacket)
    ensures
        r@ == p@,
        r.seq_number == p.seq_number,
{
    DataPacket {
        seq_number: p.seq_number,
        message_loc: p.message_loc,
        in_order_delivery: p.in_order_delivery,
        message_number: p.message_number,
        timestamp: p.timestamp,
        dest_sockid: p.dest_sockid,
        payload: slice_to_vec(p.payload.as_slice()),
    }
}

/// Whatever the filter kept was already there.
proof fn lemma_filter_element_of<A>(s: Seq<A>, pred: spec_fn(A) -> bool, i: int)
    requires
        0 <= i < s.filter(pred).len(),
    ensures
        s.contains(s.filter(pred)[i]),
    decreases s.len(),
{
    reveal(Seq::filter);
    if s.len() > 0 {
        let sub = s.drop_last().filter(pred);
        if i < sub.len() {
            lemma_filter_element_of(s.drop_last(), pred, i);
            let x = s.drop_last().filter(pred)[i];
            let j = choose|j: int| 0 <= j < s.drop_last().len() && s.drop_last()[j] == x;
            assert(s[j] == x);
        } else {
            assert(pred(s.last()));
            assert(s.filter(pred)[i] == s.last());
            assert(s[s.len() - 1] == s.last());
        }
    }
}

/// Whether some in-flight packet carries this sequence number.
pub open spec fn spec_in_flight_has(in_flight: Seq<DataPacket>, q: SeqNumber) -> bool {
    exists|j: int| 0 <= j < in_flight.len() && (#[trigger] in_flight[j]).seq_number == q
}

/// The send counts that survive an acknowledgment: `counts[i]` follows
/// `pkts[i]` through the same filter.
pub open spec fn spec_filter_counts(
    pkts: Seq<DataPacket>,
    counts: Seq<u32>,
    pred: spec_fn(DataPacket) -> bool,
) -> Seq<u32>
    recommends
        pkts.len() == counts.len(),
    decreases pkts.len(),
{
    if pkts.len() == 0 {
        Seq::<u32>::empty()
    } else {
        let sub = spec_filter_counts(pkts.drop_last(), counts.drop_last(), pred);
        if pred(pkts.last()) {
            sub.push(counts.last())
        } else {
            sub
        }
    }
}

/// How many packets at the front of the window belong to the front
/// packet's message.
pub open spec fn spec_msg_run(pkts: Seq<DataPacket>, k: int) -> int
    decreases pkts.len() - k,
{
    if k < 1 || k >= pkts.len() {
        k
    } else if pkts[k].message_number == pkts[0].message_number {
        spec_msg_run(pkts, k + 1)
    } else {
        k
    }
}

/// The sender's packet bookkeeping: packets on the wire and not yet
/// acknowledged (each with how often it has been sent), packets queued and
/// never sent, and the sequence numbers the peer reported lost.
pub struct SendBuffer {
    in_flight: Vec<DataPacket>,
    send_counts: Vec<u32>,
    pending: Vec<DataPacket>,
    loss_list: Vec<SeqNumber>,
}

impl SendBuffer {
    /// Packets sent and not yet acknowledged, oldest first.
    pub closed spec fn spec_in_flight(self) -> Seq<DataPacket> {
        self.in_flight@
    }

    /// How often each in-flight packet has been sent, in step with
    /// `spec_in_flight`.
    pub closed spec fn spec_send_counts(self) -> Seq<u32> {
        self.send_counts@
    }

    /// Packets queued to be sent, next first.
    pub closed spec fn spec_pending(self) -> Seq<DataPacket> {
        self.pending@
    }

    /// Sequence numbers reported lost and not yet resent, oldest report
    /// first.
    pub closed spec fn spec_losses(self) -> Seq<SeqNumber> {
        self.loss_list@
    }

    /// Well-formed: every sequence number in the buffer fits its 31 bits,
    /// and every in-flight packet has its send count.
    pub open spec fn wf(self) -> bool {
        &&& self.spec_send_counts().len() == self.spec_in_flight().len()
        &&& forall|i: int|
            0 <= i < self.spec_in_flight().len() ==> (
            #[trigger] self.spec_in_flight()[i]).seq_number.wf()
        &&& forall|i: int|
            0 <= i < self.spec_pending().len() ==> (
            #[trigger] self.spec_pending()[i]).seq_number.wf()
        &&& forall|i: int| 0 <= i < self.spec_losses().len() ==> (#[trigger] self.spec_losses()[i]).wf()
    }

    pub fn new() -> (r: SendBuffer)
        ensures
            r.wf(),
            r.spec_in_flight().len() == 0,
            r.spec_pending().len() == 0,
            r.spec_losses().len() == 0,
    {
        SendBuffer {
            in_flight: Vec::new(),
            send_counts: Vec::new(),
            pending: Vec::new(),
            loss_list: Vec::new(),
        }
    }

    /// Queues one packet to be sent; `segment_message` produces packets in
    /// exactly the shape this takes.
    pub fn enqueue(&mut self, packet: DataPacket)
        requires
            old(self).wf(),
            packet.seq_number.wf(),
        ensures
            final(self).wf(),
            final(self).spec_in_flight() == old(self).spec_in_flight(),
            final(self).spec_send_counts() == old(self).spec_send_counts(),
            final(self).spec_losses() == old(self).spec_losses(),
            final(self).spec_pending() == old(self).spec_pending().push(packet),
    {
        self.pending.push(packet);
        proof {
            assert(self.spec_in_flight() == old(self).spec_in_flight());
            assert(self.spec_losses() == old(self).spec_losses());
            assert(self.spec_pending() == old(self).spec_pending().push(packet));
            assert forall|i: int| 0 <= i < self.spec_pending().len() implies (
            #[trigger] self.spec_pending()[i]).seq_number.wf() by {
                if i < old(self).spec_pending().len() {
                    assert(self.spec_pending()[i] == old(self).spec_pending()[i]);
                } else {
                    assert(self.spec_pending()[i] == packet);
                }
            }
        }
    }

    /// An acknowledgment arrived: everything before `recvd_until` is done
    /// with and leaves the in-flight window and the loss list.
    pub fn on_ack(&mut self, recvd_until: SeqNumber)
        requires
            old(self).wf(),
            recvd_until.wf(),
        ensures
            final(self).wf(),
            final(self).spec_pending() == old(self).spec_pending(),
            final(self).spec_in_flight() == old(self).spec_in_flight().filter(
                (|p: DataPacket| p.seq_number.spec_dist(recvd_until) >= 0),
            ),
            final(self).spec_send_counts() == spec_filter_counts(
                old(self).spec_in_flight(),
                old(self).spec_send_counts(),
                (|p: DataPacket| p.seq_number.spec_dist(recvd_until) >= 0),
            ),
            final(self).spec_losses() == old(self).spec_losses().filter(
                (|q: SeqNumber| q.spec_dist(recvd_until) >= 0),
            ),
    {
        let ghost fpred = (|p: DataPacket| p.seq_number.spec_dist(recvd_until) >= 0);
        let ghost lpred = (|q: SeqNumber| q.spec_dist(recvd_until) >= 0);
        let n = self.in_flight.len();
        let mut kept: Vec<DataPacket> = Vec::new();
        let mut kept_counts: Vec<u32> = Vec::new();
        let mut i: usize = 0;
        proof {
            reveal(Seq::filter);
            assert(old(self).spec_in_flight().take(0) =~= Seq::<DataPacket>::empty());
            assert(old(self).spec_send_counts().take(0) =~= Seq::<u32>::empty());
            assert(old(self).spec_in_flight().skip(0) =~= old(self).spec_in_flight());
            assert(old(self).spec_send_counts().skip(0) =~= old(self).spec_send_counts());
        }
        while i < n
            invariant
                old(self).wf(),
                recvd_until.wf(),
                n == old(self).spec_in_flight().len(),
                i <= n,
                self.in_flight@ == old(self).spec_in_flight().skip(i as int),
                self.send_counts@ == old(self).spec_send_counts().skip(i as int),
                self.pending@ == old(self).spec_pending(),
                self.loss_list@ == old(self).spec_losses(),
                kept@ == old(self).spec_in_flight().take(i as int).filter(fpred),
                kept_counts@.len() == kept@.len(),
                kept_counts@ == spec_filter_counts(
                    old(self).spec_in_flight().take(i as int),
                    old(self).spec_send_counts().take(i as int),
                    fpred,
                ),
                fpred == (|p: DataPacket| p.seq_number.spec_dist(recvd_until) >= 0),
            decreases n - i,
        {
            let p = self.in_flight.remove(0);
            let c = self.send_counts.remove(0);
            proof {
                assert(p == old(self).spec_in_flight()[i as int]);
                assert(c == old(self).spec_send_counts()[i as int]);
                reveal(Seq::filter);
                let pre = old(self).spec_in_flight().take(i as int);
                let now = old(self).spec_in_flight().take(i + 1 as int);
                assert(now.drop_last() =~= pre);
                assert(now.last() == old(self).spec_in_flight()[i as int]);
                let cpre = old(self).spec_send_counts().take(i as int);
                let cnow = old(self).spec_send_counts().take(i + 1 as int);
                assert(cnow.drop_last() =~= cpre);
                assert(cnow.last() == old(self).spec_send_counts()[i as int]);
                assert(self.in_flight@ =~= old(self).spec_in_flight().skip(i + 1 as int));
                assert(self.send_counts@ =~= old(self).spec_send_counts().skip(i + 1 as int));
            }
            if p.seq_number.dist(recvd_until) >= 0 {
                kept.push(p);
                kept_counts.push(c);
            }
            i = i + 1;
        }
        proof {
            assert(old(self).spec_in_flight().take(n as int) =~= old(self).spec_in_flight());
            assert(old(self).spec_send_counts().take(n as int) =~= old(self).spec_send_counts());
        }
        self.in_flight = kept;
        self.send_counts = kept_counts;
        let m = self.loss_list.len();
        let mut kept_losses: Vec<SeqNumber> = Vec::new();
        let mut k: usize = 0;
        proof {
            reveal(Seq::filter);
            assert(old(self).spec_losses().take(0) =~= Seq::<SeqNumber>::empty());
        }
        while k < m
            invariant
                old(self).wf(),
                recvd_until.wf(),
                self.loss_list@ == old(self).spec_losses(),
                m == old(self).spec_losses().len(),
                k <= m,
                kept_losses@ == old(self).spec_losses().take(k as int).filter(lpred),
                lpred == (|q: SeqNumber| q.spec_dist(recvd_until) >= 0),
            decreases m - k,
        {
            proof {
                reveal(Seq::filter);
                let pre = old(self).spec_losses().take(k as int);
                let now = old(self).spec_losses().take(k + 1 as int);
                assert(now.drop_last() =~= pre);
                assert(now.last() == old(self).spec_losses()[k as int]);
            }
            if self.loss_list[k].dist(recvd_until) >= 0 {
                kept_losses.push(self.loss_list[k]);
            }
            k = k + 1;
        }
        proof {
            assert(old(self).spec_losses().take(m as int) =~= old(self).spec_losses());
        }
        self.loss_list = kept_losses;
        proof {
            assert forall|q: int| 0 <= q < self.spec_losses().len() implies (
            #[trigger] self.spec_losses()[q]).wf() by {
                lemma_filter_element_of(old(self).spec_losses(), lpred, q);
                let t = choose|t: int|
                    0 <= t < old(self).spec_losses().len() && old(self).spec_losses()[t]
                        == self.spec_losses()[q];
            }
            assert forall|q: int| 0 <= q < self.spec_in_flight().len() implies (
            #[trigger] self.spec_in_flight()[q]).seq_number.wf() by {
                lemma_filter_element_of(old(self).spec_in_flight(), fpred, q);
                let t = choose|t: int|
                    0 <= t < old(self).spec_in_flight().len() && old(self).spec_in_flight()[t]
                        == self.spec_in_flight()[q];
            }
        }
    }

    /// A NAK arrived: record each reported number that still names a packet
    /// in flight; the rest is stale and dropped.
    pub fn on_nak(&mut self, seqs: &Vec<SeqNumber>)
        requires
            old(self).wf(),
            forall|i: int| 0 <= i < seqs@.len() ==> (#[trigger] seqs@[i]).wf(),
        ensures
            final(self).wf(),
            final(self).spec_in_flight() == old(self).spec_in_flight(),
            final(self).spec_send_counts() == old(self).spec_send_counts(),
            final(self).spec_pending() == old(self).spec_pending(),
            // nothing is forgotten, and exactly the reported numbers that
            // still name an in-flight packet join, in report order
            final(self).spec_losses() == old(self).spec_losses() + seqs@.filter(
                (|q: SeqNumber| spec_in_flight_has(old(self).spec_in_flight(), q)),
            ),
    {
        let ghost pred = (|q: SeqNumber| spec_in_flight_has(old(self).spec_in_flight(), q));
        let n = seqs.len();
        let mut i: usize = 0;
        proof {
            reveal(Seq::filter);
            assert(seqs@.take(0) =~= Seq::<SeqNumber>::empty());
            assert(self.loss_list@ =~= old(self).spec_losses() + seqs@.take(0).filter(pred));
        }
        while i < n
            invariant
                old(self).wf(),
                self.in_flight@ == old(self).spec_in_flight(),
                self.send_counts@ == old(self).spec_send_counts(),
                self.pending@ == old(self).spec_pending(),
                n == seqs@.len(),
                i <= n,
                forall|q: int| 0 <= q < seqs@.len() ==> (#[trigger] seqs@[q]).wf(),
                pred == (|q: SeqNumber| spec_in_flight_has(old(self).spec_in_flight(), q)),
                self.loss_list@ == old(self).spec_losses() + seqs@.take(i as int).filter(pred),
                forall|q: int| 0 <= q < self.loss_list@.len() ==> (#[trigger] self.loss_list@[q]).wf(),
            decreases n - i,
        {
            let candidate = seqs[i];
            let mut found = false;
            let mut j: usize = 0;
            let fl = self.in_flight.len();
            while j < fl
                invariant
                    self.in_flight@ == old(self).spec_in_flight(),
                    fl == self.in_flight@.len(),
                    j <= fl,
                    found == exists|t: int|
                        0 <= t < j && (#[trigger] self.in_flight@[t]).seq_number == candidate,
                decreases fl - j,
            {
                if self.in_flight[j].seq_number.0 == candidate.0 {
                    proof {
                        assert(self.in_flight@[j as int].seq_number == candidate);
                    }
                    found = true;
                }
                proof {
                    if found && self.in_flight@[j as int].seq_number != candidate {
                        let t = choose|t: int|
                            0 <= t < j && self.in_flight@[t].seq_number == candidate;
                        assert(0 <= t < j + 1 && self.in_flight@[t].seq_number == candidate);
                    }
                }
                j = j + 1;
            }
            proof {
                reveal(Seq::filter);
                assert(found == pred(candidate));
                let pre = seqs@.take(i as int);
                let now = seqs@.take(i + 1 as int);
                assert(now.drop_last() =~= pre);
                assert(now.last() == seqs@[i as int]);
            }
            let ghost before = self.loss_list@;
            if found {
                self.loss_list.push(candidate);
                proof {
                    assert(self.loss_list@ =~= old(self).spec_losses() + seqs@.take(
                        i + 1 as int,
                    ).filter(pred));
                }
            } else {
                proof {
                    assert(self.loss_list@ =~= old(self).spec_losses() + seqs@.take(
                        i + 1 as int,
                    ).filter(pred));
                }
            }
            i = i + 1;
        }
        proof {
            assert(seqs@.take(n as int) =~= seqs@);
        }
    }

    /// The pacer's choice: a reported loss first, then a fresh packet while
    /// the window has room, else nothing. A fresh packet moves from the
    /// queue into the in-flight window as it goes out; a loss report that an
    /// acknowledgment has overtaken is discarded.
    pub fn next_to_send(&mut self, window: usize) -> (r: SendChoice)
        requires
            old(self).wf(),
        ensures
            final(self).wf(),
            match r {
                SendChoice::Retransmit(p) => old(self).spec_losses().len() > 0 && final(self).spec_losses()
                    == old(self).spec_losses().skip(1) && final(self).spec_in_flight() == old(self).spec_in_flight()
                    && final(self).spec_pending() == old(self).spec_pending() && p.seq_number == old(self).spec_losses()[0]
                    && (exists|j: int|
                    0 <= j < old(self).spec_in_flight().len() && p@ == (
                    #[trigger] old(self).spec_in_flight()[j])@ && final(self).spec_send_counts() == old(self).spec_send_counts().update(
                        j,
                        (if old(self).spec_send_counts()[j] < 0xffff_ffffu32 {
                            (old(self).spec_send_counts()[j] + 1) as u32
                        } else {
                            old(self).spec_send_counts()[j]
                        }),
                    )),
                SendChoice::Stale(q) => old(self).spec_losses().len() > 0 && q == old(self).spec_losses()[0]
                    && final(self).spec_losses() == old(self).spec_losses().skip(1)
                    && final(self).spec_in_flight() == old(self).spec_in_flight()
                    && final(self).spec_send_counts() == old(self).spec_send_counts()
                    && final(self).spec_pending() == old(self).spec_pending() && (forall|j: int|
                    0 <= j < old(self).spec_in_flight().len() ==> (
                    #[trigger] old(self).spec_in_flight()[j]).seq_number != q),
                SendChoice::Fresh(p) => old(self).spec_losses().len() == 0 && old(self).spec_pending().len() > 0
                    && old(self).spec_in_flight().len() < window && p@ == old(self).spec_pending()[0]@
                    && final(self).spec_in_flight() == old(self).spec_in_flight().push(
                    old(self).spec_pending()[0],
                ) && final(self).spec_send_counts() == old(self).spec_send_counts().push(1u32)
                    && final(self).spec_pending() == old(self).spec_pending().skip(1)
                    && final(self).spec_losses() == old(self).spec_losses(),
                SendChoice::Wait => old(self).spec_losses().len() == 0 && (old(self).spec_pending().len() == 0
                    || old(self).spec_in_flight().len() >= window) && *final(self) == *old(self),
            },
    {
        if self.loss_list.len() > 0 {
            let target = self.loss_list.remove(0);
            proof {
                assert(self.loss_list@ =~= old(self).spec_losses().skip(1));
            }
            let fl = self.in_flight.len();
            let mut j: usize = 0;
            while j < fl
                invariant
                    old(self).wf(),
                    old(self).spec_losses().len() > 0,
                    self.in_flight@ == old(self).spec_in_flight(),
                    self.send_counts@ == old(self).spec_send_counts(),
                    self.pending@ == old(self).spec_pending(),
                    self.loss_list@ == old(self).spec_losses().skip(1),
                    fl == self.in_flight@.len(),
                    j <= fl,
                    target == old(self).spec_losses()[0],
                    forall|t: int|
                        0 <= t < j ==> (#[trigger] self.in_flight@[t]).seq_number != target,
                decreases fl - j,
            {
                if self.in_flight[j].seq_number.0 == target.0 {
                    proof {
                        assert(self.in_flight@[j as int].seq_number == target);
                    }
                    let p = duplicate_packet(&self.in_flight[j]);
                    let c = self.send_counts[j];
                    self.send_counts[j] = if c < 0xffff_ffff {
                        c + 1
                    } else {
                        c
                    };
                    return SendChoice::Retransmit(p);
                }
                proof {
                    assert(self.in_flight@[j as int].seq_number.0 != target.0);
                }
                j = j + 1;
            }
            SendChoice::Stale(target)
        } else if self.pending.len() > 0 && self.in_flight.len() < window {
            let p = self.pending.remove(0);
            proof {
                assert(self.pending@ =~= old(self).spec_pending().skip(1));
            }
            let copy = duplicate_packet(&p);
            self.in_flight.push(p);
            self.send_counts.push(1);
            proof {
                assert(self.in_flight@ =~= old(self).spec_in_flight().push(
                    old(self).spec_pending()[0],
                ));
            }
            SendChoice::Fresh(copy)
        } else {
            SendChoice::Wait
        }
    }

    /// Gives up on the message at the front of the in-flight window, once
    /// its first packet has been sent more than `threshold` times and has
    /// passed its play-out deadline: the whole front run of packets with
    /// that message number leaves the window, and the caller is told what
    /// DropRequest to emit — the message number and the inclusive range of
    /// sequence numbers given up. Loss reports naming the evicted packets
    /// become stale and are discarded as they come up for service.
    pub fn drop_overdue_message(&mut self, now_us: i64, latency_us: i64, threshold: u32) -> (r:
        Option<(MsgNumber, SeqNumber, SeqNumber)>)
        requires
            old(self).wf(),
            0 <= latency_us < 0x4000_0000_0000_0000,
        ensures
            final(self).wf(),
            final(self).spec_pending() == old(self).spec_pending(),
            final(self).spec_losses() == old(self).spec_losses(),
            match r {
                Some(d) => old(self).spec_in_flight().len() > 0 && old(self).spec_send_counts()[0]
                    > threshold && spec_due(old(self).spec_in_flight()[0], now_us, latency_us) && ({
                    let run = spec_msg_run(old(self).spec_in_flight(), 1);
                    d.0 == old(self).spec_in_flight()[0].message_number && d.1 == old(self).spec_in_flight()[0].seq_number
                        && d.2 == old(self).spec_in_flight()[run - 1].seq_number && final(self).spec_in_flight()
                        == old(self).spec_in_flight().skip(run) && final(self).spec_send_counts()
                        == old(self).spec_send_counts().skip(run)
                }),
                None => *final(self) == *old(self) && (old(self).spec_in_flight().len() == 0 || old(self).spec_send_counts()[0]
                    <= threshold || !spec_due(old(self).spec_in_flight()[0], now_us, latency_us)),
            },
    {
        let n = self.in_flight.len();
        if n == 0 {
            return None;
        }
        let head_due = self.in_flight[0].timestamp as i64 + latency_us <= now_us;
        if self.send_counts[0] <= threshold || !head_due {
            return None;
        }
        let msg = self.in_flight[0].message_number;
        let first = self.in_flight[0].seq_number;
        let mut e: usize = 1;
        while e < n && self.in_flight[e].message_number.0 == msg.0
            invariant
                old(self).wf(),
                self.in_flight@ == old(self).spec_in_flight(),
                self.send_counts@ == old(self).spec_send_counts(),
                self.pending@ == old(self).spec_pending(),
                self.loss_list@ == old(self).spec_losses(),
                n == self.in_flight@.len(),
                1 <= e <= n,
                msg == old(self).spec_in_flight()[0].message_number,
                spec_msg_run(old(self).spec_in_flight(), 1) == spec_msg_run(
                    old(self).spec_in_flight(),
                    e as int,
                ),
            decreases n - e,
        {
            proof {
                assert(self.in_flight@[e as int].message_number == msg);
                assert(spec_msg_run(old(self).spec_in_flight(), e as int) == spec_msg_run(
                    old(self).spec_in_flight(),
                    e + 1 as int,
                ));
            }
            e = e + 1;
        }
        let ghost run = spec_msg_run(old(self).spec_in_flight(), 1);
        proof {
            assert(run == e);
        }
        let last = self.in_flight[e - 1].seq_number;
        let mut i: usize = 0;
        while i < e
            invariant
                old(self).wf(),
                i <= e <= old(self).spec_in_flight().len(),
                self.in_flight@ == old(self).spec_in_flight().skip(i as int),
                self.send_counts@ == old(self).spec_send_counts().skip(i as int),
                self.pending@ == old(self).spec_pending(),
                self.loss_list@ == old(self).spec_losses(),
            decreases e - i,
        {
            self.in_flight.remove(0);
            self.send_counts.remove(0);
            proof {
                assert(self.in_flight@ =~= old(self).spec_in_flight().skip(i + 1 as int));
                assert(self.send_counts@ =~= old(self).spec_send_counts().skip(i + 1 as int));
            }
            i = i + 1;
        }
        Some((msg, first, last))
    }
}

} // verus!
