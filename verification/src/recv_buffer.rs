//! The receive buffer: a bounded, sequence-indexed window of data packets.
//!
//! Slot `k` stands for the packet `k` sequence numbers past `buffer_base`,
//! the first sequence number not yet handed to the consumer. Packets land in
//! their slot whatever order they arrive in; duplicates and packets outside
//! the window are dropped. Delivery takes whole messages off the front and
//! advances the base, which only ever moves forward; a hole at the front is
//! given up on once the delivery deadline of a packet behind it has passed
//! (timestamp-based packet delivery).

use crate::packet::{DataPacket, PacketLocation};
use crate::seq_number::{
    lemma_seq_step_compose, lemma_seq_step_dist, lemma_seq_step_of_dist, lemma_seq_step_zero,
    SeqNumber, SEQ_HALF,
};
use vstd::prelude::*;

verus! {

/// What became of a packet offered to the buffer.
#[derive(Debug, Clone, Copy, PartialEq, Eq, Structural)]
pub enum InsertResult {
    /// Stored in its slot.
    Inserted,
    /// Its slot was already filled; the copy was dropped.
    Duplicate,
    /// Behind the base or past the window; dropped and counted.
    LateOrOverflow,
}

/// A bounded window of packets indexed by sequence number.
pub struct ReceiveBuffer {
    buffer_base: SeqNumber,
    buffer: Vec<Option<DataPacket>>,
}

impl ReceiveBuffer {
    /// The first sequence number not yet consumed; slot 0 stands for it.
    pub closed spec fn spec_base(self) -> SeqNumber {
        self.buffer_base
    }

    /// The window's slots, front first.
    pub closed spec fn spec_slots(self) -> Seq<Option<DataPacket>> {
        self.buffer@
    }

    /// How many sequence numbers the window spans.
    pub open spec fn spec_capacity(self) -> int {
        self.spec_slots().len() as int
    }

    /// A filled slot holds the packet whose sequence number it stands for.
    pub open spec fn slot_ok(self, k: int) -> bool {
        self.spec_slots()[k] matches Some(p) ==> p.seq_number == self.spec_base().spec_step(k)
            && p.message_number.wf()
    }

    /// Well-formed: a valid base, a capacity within the half-window, and
    /// every filled slot in its place.
    pub open spec fn wf(self) -> bool {
        &&& self.spec_base().wf()
        &&& 1 <= self.spec_capacity() < SEQ_HALF as int
        &&& forall|k: int| 0 <= k < self.spec_capacity() ==> #[trigger] self.slot_ok(k)
    }

    /// The window base, for acknowledgment: everything before it has been
    /// consumed or given up on.
    pub fn base(&self) -> (r: SeqNumber)
        ensures
            r == self.spec_base(),
    {
        self.buffer_base
    }

    /// An empty window of `capacity` slots starting at `initial_seq`.
    pub fn new(initial_seq: SeqNumber, capacity: usize) -> (r: ReceiveBuffer)
        requires
            initial_seq.wf(),
            1 <= capacity < SEQ_HALF,
        ensures
            r.wf(),
            r.spec_base() == initial_seq,
            r.spec_capacity() == capacity,
            forall|k: int| 0 <= k < capacity ==> r.spec_slots()[k] is None,
    {
        let mut buffer: Vec<Option<DataPacket>> = Vec::new();
        let mut i: usize = 0;
        while i < capacity
            invariant
                i <= capacity,
                buffer@.len() == i,
                forall|k: int| 0 <= k < i ==> buffer@[k] is None,
            decreases capacity - i,
        {
            buffer.push(None);
            i = i + 1;
        }
        ReceiveBuffer { buffer_base: initial_seq, buffer }
    }

    /// Stores `pkt` in the slot its sequence number names, if that slot is
    /// inside the window and still empty; otherwise drops it and says why.
    /// First write wins; the base never moves here.
    pub fn insert(&mut self, pkt: DataPacket) -> (r: InsertResult)
        requires
            old(self).wf(),
            pkt.seq_number.wf(),
            pkt.message_number.wf(),
        ensures
            final(self).wf(),
            final(self).spec_base() == old(self).spec_base(),
            final(self).spec_capacity() == old(self).spec_capacity(),
            final(self).spec_slots() == spec_insert(
                old(self).spec_slots(),
                old(self).spec_base(),
                pkt,
            ),
            ({
                let d = pkt.seq_number.spec_dist(old(self).spec_base());
                if 0 <= d < old(self).spec_capacity() {
                    if old(self).spec_slots()[d] is None {
                        r == InsertResult::Inserted && final(self).spec_slots() == old(
                            self,
                        ).spec_slots().update(d, Some(pkt))
                    } else {
                        r == InsertResult::Duplicate && final(self).spec_slots() == old(
                            self,
                        ).spec_slots()
                    }
                } else {
                    r == InsertResult::LateOrOverflow && final(self).spec_slots() == old(
                        self,
                    ).spec_slots()
                }
            }),
    {
        let d = pkt.seq_number.dist(self.buffer_base);
        if d < 0 || d >= self.buffer.len() as i32 {
            return InsertResult::LateOrOverflow;
        }
        let idx = d as usize;
        if self.buffer[idx].is_some() {
            return InsertResult::Duplicate;
        }
        proof {
            lemma_seq_step_of_dist(pkt.seq_number, self.buffer_base);
        }
        self.buffer[idx] = Some(pkt);
        proof {
            assert forall|k: int| 0 <= k < self.spec_capacity() implies #[trigger] self.slot_ok(
                k,
            ) by {
                if k != idx {
                    assert(self.spec_slots()[k] == old(self).spec_slots()[k]);
                    assert(old(self).slot_ok(k));
                }
            }
        }
        InsertResult::Inserted
    }

    /// The sequence numbers before `up_to` whose slot is still empty, in
    /// order: what a NAK should ask for.
    pub fn missing_up_to(&self, up_to: SeqNumber) -> (r: Vec<SeqNumber>)
        requires
            self.wf(),
            up_to.wf(),
            0 <= up_to.spec_dist(self.spec_base()) <= self.spec_capacity(),
        ensures
            r@ == spec_missing(self.spec_slots(), self.spec_base(), up_to.spec_dist(
                self.spec_base(),
            )),
    {
        let d = up_to.dist(self.buffer_base);
        let n = d as usize;
        let mut out: Vec<SeqNumber> = Vec::new();
        let mut k: usize = 0;
        while k < n
            invariant
                self.wf(),
                n <= self.spec_capacity(),
                k <= n,
                out@ == spec_missing(self.spec_slots(), self.spec_base(), k as int),
            decreases n - k,
        {
            if self.buffer[k].is_none() {
                out.push(self.buffer_base.wrapping_add(k as u32));
                proof {
                    assert(out@ =~= spec_missing(
                        self.spec_slots(),
                        self.spec_base(),
                        k + 1 as int,
                    ));
                }
            } else {
                proof {
                    assert(out@ =~= spec_missing(
                        self.spec_slots(),
                        self.spec_base(),
                        k + 1 as int,
                    ));
                }
            }
            k = k + 1;
        }
        out
    }
}

impl ReceiveBuffer {
    /// Whether slot `k` holds a packet standing at `loc` in its message.
    fn slot_loc_is(&self, k: usize, loc: PacketLocation) -> (b: bool)
        requires
            self.wf(),
            k < self.spec_capacity(),
        ensures
            b == (self.spec_slots()[k as int] matches Some(p) && p.message_loc == loc),
    {
        match &self.buffer[k] {
            Some(p) => p.message_loc == loc,
            None => false,
        }
    }

    /// Takes the front slot off, shifts the window, and moves the base one
    /// step forward.
    fn pop_front(&mut self) -> (r: Option<DataPacket>)
        requires
            old(self).wf(),
        ensures
            final(self).wf(),
            final(self).spec_capacity() == old(self).spec_capacity(),
            final(self).spec_base() == old(self).spec_base().spec_step(1),
            r == old(self).spec_slots()[0],
            forall|k: int|
                0 <= k < old(self).spec_capacity() - 1 ==> final(self).spec_slots()[k] == old(
                    self,
                ).spec_slots()[k + 1],
            final(self).spec_slots()[old(self).spec_capacity() - 1] is None,
    {
        let r = self.buffer.remove(0);
        self.buffer.push(None);
        self.buffer_base = self.buffer_base.wrapping_add(1);
        proof {
            let cap = old(self).spec_capacity();
            assert forall|k: int| 0 <= k < cap - 1 implies self.spec_slots()[k] == old(
                self,
            ).spec_slots()[k + 1] by {
                assert(old(self).spec_slots().remove(0)[k] == old(self).spec_slots()[k + 1]);
            }
            assert forall|k: int| 0 <= k < cap implies #[trigger] self.slot_ok(k) by {
                if k < cap - 1 {
                    assert(old(self).slot_ok(k + 1));
                    lemma_seq_step_compose(old(self).spec_base(), 1, k);
                }
            }
        }
        r
    }

    /// Takes the front `n` slots off the window, advancing the base past
    /// them; with `deliver`, hands back the bytes of the packets among them,
    /// in order.
    fn consume(&mut self, n: usize, deliver: bool) -> (r: Option<Vec<u8>>)
        requires
            old(self).wf(),
            1 <= n <= old(self).spec_capacity(),
        ensures
            final(self).wf(),
            final(self).spec_capacity() == old(self).spec_capacity(),
            final(self).spec_base() == old(self).spec_base().spec_step(n as int),
            forall|k: int|
                0 <= k < old(self).spec_capacity() - n ==> final(self).spec_slots()[k] == old(
                    self,
                ).spec_slots()[k + n],
            forall|k: int|
                old(self).spec_capacity() - n <= k < old(self).spec_capacity() ==> final(self).spec_slots()[k] is None,
            deliver ==> (r matches Some(v) && v@ == spec_run_payload(old(self).spec_slots(), n as int)),
            !deliver ==> r is None,
    {
        let mut out: Vec<u8> = Vec::new();
        let mut i: usize = 0;
        proof {
            lemma_seq_step_zero(old(self).spec_base());
        }
        while i < n
            invariant
                old(self).wf(),
                self.wf(),
                i <= n,
                n <= old(self).spec_capacity(),
                self.spec_capacity() == old(self).spec_capacity(),
                self.spec_base() == old(self).spec_base().spec_step(i as int),
                forall|k: int|
                    0 <= k < old(self).spec_capacity() - i ==> self.spec_slots()[k] == old(
                        self,
                    ).spec_slots()[k + i],
                forall|k: int|
                    old(self).spec_capacity() - i <= k < old(self).spec_capacity()
                        ==> self.spec_slots()[k] is None,
                out@ == spec_run_payload(old(self).spec_slots(), i as int),
            decreases n - i,
        {
            let ghost prev_out = out@;
            let front = self.pop_front();
            proof {
                assert(front == old(self).spec_slots()[i as int]);
                lemma_seq_step_compose(old(self).spec_base(), i as int, 1);
            }
            if let Some(p) = front {
                crate::packet::append_bytes(&mut out, p.payload.as_slice());
                proof {
                    assert(out@ == spec_run_payload(old(self).spec_slots(), i + 1 as int));
                }
            } else {
                proof {
                    assert(out@ =~= prev_out + Seq::<u8>::empty());
                    assert(out@ == spec_run_payload(old(self).spec_slots(), i + 1 as int));
                }
            }
            i = i + 1;
        }
        if deliver {
            Some(out)
        } else {
            None
        }
    }

    /// Hands the consumer the next message, if one is ready, and gives up on
    /// holes whose wait is over.
    ///
    /// A message is ready when the window starts with a lone packet, or with
    /// a whole First..Last run. When the packet at the front of the window
    /// has passed its play-out deadline (`timestamp + latency <= now`, all
    /// in microseconds since the connection started) and its message cannot
    /// be completed, the present prefix of the message is taken off: handed
    /// over if the message did not insist on order, silently dropped if it
    /// did. A hole at the very front is given up on once the first packet
    /// behind it has passed its deadline; the call after that one sees that
    /// packet at the front. The base never moves backward.
    pub fn next_message(&mut self, now_us: i64, latency_us: i64) -> (r: Option<Vec<u8>>)
        requires
            old(self).wf(),
            0 <= latency_us < 0x4000_0000_0000_0000,
        ensures
            final(self).wf(),
            final(self).spec_capacity() == old(self).spec_capacity(),
            final(self).spec_base() == old(self).spec_base().spec_step(
                spec_next_advance(old(self).spec_slots(), now_us, latency_us),
            ),
            final(self).spec_base().spec_dist(old(self).spec_base()) == spec_next_advance(
                old(self).spec_slots(),
                now_us,
                latency_us,
            ),
            match r {
                Some(v) => spec_next_delivery(old(self).spec_slots(), now_us, latency_us) == Some(
                    v@,
                ),
                None => spec_next_delivery(old(self).spec_slots(), now_us, latency_us) is None,
            },
            forall|k: int|
                0 <= k < old(self).spec_capacity() - spec_next_advance(
                    old(self).spec_slots(),
                    now_us,
                    latency_us,
                ) ==> final(self).spec_slots()[k] == old(self).spec_slots()[k + spec_next_advance(
                    old(self).spec_slots(),
                    now_us,
                    latency_us,
                )],
    {
        let ghost slots0 = old(self).spec_slots();
        let cap = self.buffer.len();
        proof {
            lemma_seq_step_zero(old(self).spec_base());
            lemma_seq_step_dist(old(self).spec_base(), 0);
        }
        // Find the first filled slot.
        let mut f: usize = 0;
        while f < cap && self.buffer[f].is_none()
            invariant
                old(self).wf(),
                self == old(self),
                slots0 == old(self).spec_slots(),
                cap == self.spec_capacity(),
                f <= cap,
                spec_first_present(slots0, 0) == spec_first_present(slots0, f as int),
            decreases cap - f,
        {
            proof {
                assert(slots0[f as int] is None);
                assert(spec_first_present(slots0, f as int) == spec_first_present(
                    slots0,
                    f + 1 as int,
                ));
            }
            f = f + 1;
        }
        if f == cap {
            // Nothing buffered at all.
            return None;
        }
        let due_first = match &self.buffer[f] {
            Some(p) => p.timestamp as i64 + latency_us <= now_us,
            None => false,
        };
        if f > 0 {
            // A hole at the front; give up on it only once the packet
            // behind it is overdue.
            if due_first {
                let _ = self.consume(f, false);
                proof {
                    lemma_seq_step_dist(old(self).spec_base(), f as int);
                }
            }
            return None;
        }
        let (loc, in_order) = match &self.buffer[0] {
            Some(p) => (p.message_loc, p.in_order_delivery),
            None => {
                proof {
                    assert(false);
                }
                return None;
            },
        };
        if loc == PacketLocation::Only {
            let r = self.consume(1, true);
            proof {
                lemma_seq_step_dist(old(self).spec_base(), 1);
            }
            return r;
        }
        if loc == PacketLocation::First {
            // Walk the run of middles that continues the message.
            let mut e: usize = 1;
            while e < cap && self.slot_loc_is(e, PacketLocation::Middle)
                invariant
                    old(self).wf(),
                    self == old(self),
                    slots0 == old(self).spec_slots(),
                    cap == self.spec_capacity(),
                    1 <= e <= cap,
                    spec_run_scan(slots0, 1) == spec_run_scan(slots0, e as int),
                decreases cap - e,
            {
                proof {
                    assert(spec_run_scan(slots0, e as int) == spec_run_scan(slots0, e + 1 as int));
                }
                e = e + 1;
            }
            let complete = e < cap && self.slot_loc_is(e, PacketLocation::Last);
            if complete {
                let r = self.consume(e + 1, true);
                proof {
                    lemma_seq_step_dist(old(self).spec_base(), e + 1 as int);
                }
                return r;
            }
            if due_first {
                if in_order {
                    let _ = self.consume(e, false);
                    proof {
                        lemma_seq_step_dist(old(self).spec_base(), e as int);
                    }
                    return None;
                } else {
                    let r = self.consume(e, true);
                    proof {
                        lemma_seq_step_dist(old(self).spec_base(), e as int);
                    }
                    return r;
                }
            }
            return None;
        }
        // A stray middle or tail at the front: the remains of a message
        // already given up on. Drop it once it is overdue.
        if due_first {
            let _ = self.consume(1, false);
            proof {
                lemma_seq_step_dist(old(self).spec_base(), 1);
            }
        }
        return None;
    }
}

/// What `insert` does to the window, as a function on slots: the packet
/// lands in the slot its sequence number names if that slot is inside the
/// window and empty, and nothing changes otherwise.
pub open spec fn spec_insert(
    slots: Seq<Option<DataPacket>>,
    base: SeqNumber,
    pkt: DataPacket,
) -> Seq<Option<DataPacket>> {
    let d = pkt.seq_number.spec_dist(base);
    if 0 <= d < slots.len() && slots[d] is None {
        slots.update(d, Some(pkt))
    } else {
        slots
    }
}

/// Insertions of packets with different sequence numbers commute: the
/// window a batch of packets builds does not depend on their arrival order.
pub proof fn lemma_insert_commutes(
    slots: Seq<Option<DataPacket>>,
    base: SeqNumber,
    p1: DataPacket,
    p2: DataPacket,
)
    requires
        base.wf(),
        p1.seq_number.wf(),
        p2.seq_number.wf(),
        p1.seq_number != p2.seq_number,
    ensures
        spec_insert(spec_insert(slots, base, p1), base, p2) == spec_insert(
            spec_insert(slots, base, p2),
            base,
            p1,
        ),
{
    let d1 = p1.seq_number.spec_dist(base);
    let d2 = p2.seq_number.spec_dist(base);
    lemma_seq_step_of_dist(p1.seq_number, base);
    lemma_seq_step_of_dist(p2.seq_number, base);
    assert(d1 != d2);
    assert(spec_insert(spec_insert(slots, base, p1), base, p2) =~= spec_insert(
        spec_insert(slots, base, p2),
        base,
        p1,
    ));
}

/// Inserting the same packet again changes nothing: duplicates on the wire
/// leave the window as the first copy built it.
pub proof fn lemma_insert_duplicate(slots: Seq<Option<DataPacket>>, base: SeqNumber, p: DataPacket)
    ensures
        spec_insert(spec_insert(slots, base, p), base, p) == spec_insert(slots, base, p),
{
    let d = p.seq_number.spec_dist(base);
    if 0 <= d < slots.len() && slots[d] is None {
        assert(spec_insert(slots, base, p)[d] is Some);
    }
}


/// The window a whole batch of packets builds, fed in the order given.
pub open spec fn spec_insert_all(
    slots: Seq<Option<DataPacket>>,
    base: SeqNumber,
    pkts: Seq<DataPacket>,
) -> Seq<Option<DataPacket>>
    decreases pkts.len(),
{
    if pkts.len() == 0 {
        slots
    } else {
        spec_insert_all(spec_insert(slots, base, pkts[0]), base, pkts.skip(1))
    }
}

/// No two packets of the batch contend for a slot.
pub open spec fn spec_distinct_seqs(pkts: Seq<DataPacket>) -> bool {
    forall|i: int, j: int|
        0 <= i < j < pkts.len() ==> (#[trigger] pkts[i]).seq_number != (#[trigger] pkts[j]).seq_number
}

/// What a batch of packets with pairwise distinct sequence numbers builds,
/// slot by slot: a filled slot keeps its packet; an empty slot takes the
/// batch's packet whose sequence number names it, if the batch has one.
/// Nothing on the right-hand side mentions the order of the batch.
pub proof fn lemma_insert_all_characterized(
    slots: Seq<Option<DataPacket>>,
    base: SeqNumber,
    pkts: Seq<DataPacket>,
)
    requires
        base.wf(),
        forall|i: int| 0 <= i < pkts.len() ==> (#[trigger] pkts[i]).seq_number.wf(),
        spec_distinct_seqs(pkts),
    ensures
        spec_insert_all(slots, base, pkts).len() == slots.len(),
        forall|k: int|
            0 <= k < slots.len() && slots[k] is Some ==> #[trigger] spec_insert_all(
                slots,
                base,
                pkts,
            )[k] == slots[k],
        forall|k: int|
            0 <= k < slots.len() && slots[k] is None ==> match #[trigger] spec_insert_all(
                slots,
                base,
                pkts,
            )[k] {
                Some(p) => pkts.contains(p) && p.seq_number.spec_dist(base) == k,
                None => forall|i: int|
                    0 <= i < pkts.len() ==> (#[trigger] pkts[i]).seq_number.spec_dist(base) != k,
            },
        forall|i: int|
            0 <= i < pkts.len() && 0 <= (#[trigger] pkts[i]).seq_number.spec_dist(base)
                < slots.len() && slots[pkts[i].seq_number.spec_dist(base)] is None
                ==> spec_insert_all(slots, base, pkts)[pkts[i].seq_number.spec_dist(base)] == Some(
                pkts[i],
            ),
    decreases pkts.len(),
{
    if pkts.len() > 0 {
        let p0 = pkts[0];
        let rest = pkts.skip(1);
        let d0 = p0.seq_number.spec_dist(base);
        let s1 = spec_insert(slots, base, p0);
        lemma_insert_all_characterized(s1, base, rest);
        assert(forall|p: DataPacket| rest.contains(p) ==> pkts.contains(p)) by {
            assert forall|p: DataPacket| rest.contains(p) implies pkts.contains(p) by {
                let i = choose|i: int| 0 <= i < rest.len() && rest[i] == p;
                assert(pkts[i + 1] == p);
            }
        }
        // Distinct sequence numbers put every packet on its own slot.
        assert forall|i: int|
            0 < i < pkts.len() implies (#[trigger] pkts[i]).seq_number.spec_dist(base) != d0 by {
            if pkts[i].seq_number.spec_dist(base) == d0 {
                lemma_seq_step_of_dist(pkts[i].seq_number, base);
                lemma_seq_step_of_dist(p0.seq_number, base);
            }
        }
        assert forall|k: int|
            0 <= k < slots.len() && slots[k] is None implies match spec_insert_all(
            slots,
            base,
            pkts,
        )[k] {
            Some(p) => pkts.contains(p) && p.seq_number.spec_dist(base) == k,
            None => forall|i: int|
                0 <= i < pkts.len() ==> (#[trigger] pkts[i]).seq_number.spec_dist(base) != k,
        } by {
            if k == d0 {
                assert(s1[k] == Some(p0));
                assert(pkts.contains(p0)) by {
                    assert(pkts[0] == p0);
                }
            } else {
                assert(s1[k] == slots[k]);
                match spec_insert_all(s1, base, rest)[k] {
                    Some(p) => {},
                    None => {
                        assert forall|i: int|
                            0 <= i < pkts.len() implies (#[trigger] pkts[i]).seq_number.spec_dist(
                            base,
                        ) != k by {
                            if i > 0 {
                                assert(rest[i - 1] == pkts[i]);
                            }
                        }
                    },
                }
            }
        }
        assert forall|i: int|
            0 <= i < pkts.len() && 0 <= (#[trigger] pkts[i]).seq_number.spec_dist(base)
                < slots.len() && slots[pkts[i].seq_number.spec_dist(base)] is None implies
            spec_insert_all(slots, base, pkts)[pkts[i].seq_number.spec_dist(base)] == Some(
            pkts[i],
        ) by {
            let k = pkts[i].seq_number.spec_dist(base);
            if i == 0 {
                assert(s1[k] == Some(p0));
            } else {
                assert(rest[i - 1] == pkts[i]);
                assert(s1[k] == slots[k]);
            }
        }
    }
}

/// Reorder tolerance: two batches that hold the same packets — whatever
/// their order — build the same window, as long as no two packets contend
/// for one slot. Together with `lemma_insert_duplicate`, which lets copies
/// collapse, the window a session builds does not depend on how the network
/// shuffled it.
pub proof fn lemma_insert_all_order_independent(
    slots: Seq<Option<DataPacket>>,
    base: SeqNumber,
    pkts1: Seq<DataPacket>,
    pkts2: Seq<DataPacket>,
)
    requires
        base.wf(),
        forall|i: int| 0 <= i < pkts1.len() ==> (#[trigger] pkts1[i]).seq_number.wf(),
        spec_distinct_seqs(pkts1),
        spec_distinct_seqs(pkts2),
        pkts1.to_multiset() == pkts2.to_multiset(),
    ensures
        spec_insert_all(slots, base, pkts1) == spec_insert_all(slots, base, pkts2),
{
    broadcast use vstd::seq_lib::group_to_multiset_ensures;

    assert forall|p: DataPacket| #[trigger] pkts1.contains(p) <==> #[trigger] pkts2.contains(p) by {
        pkts1.to_multiset_ensures();
        pkts2.to_multiset_ensures();
        assert(pkts1.to_multiset().count(p) == pkts2.to_multiset().count(p));
        assert(pkts1.contains(p) <==> pkts1.to_multiset().count(p) > 0);
        assert(pkts2.contains(p) <==> pkts2.to_multiset().count(p) > 0);
    }
    assert forall|i: int| 0 <= i < pkts2.len() implies (#[trigger] pkts2[i]).seq_number.wf() by {
        assert(pkts2.contains(pkts2[i]));
        assert(pkts1.contains(pkts2[i]));
        let j = choose|j: int| 0 <= j < pkts1.len() && pkts1[j] == pkts2[i];
        assert(pkts1[j].seq_number.wf());
    }
    lemma_insert_all_characterized(slots, base, pkts1);
    lemma_insert_all_characterized(slots, base, pkts2);
    let r1 = spec_insert_all(slots, base, pkts1);
    let r2 = spec_insert_all(slots, base, pkts2);
    assert forall|k: int| 0 <= k < slots.len() implies r1[k] == r2[k] by {
        if slots[k] is None {
            match r1[k] {
                Some(p) => {
                    assert(pkts2.contains(p));
                    let j = choose|j: int| 0 <= j < pkts2.len() && pkts2[j] == p;
                    assert(r2[k] == Some(p));
                },
                None => {
                    match r2[k] {
                        Some(q) => {
                            assert(pkts1.contains(q));
                            let j = choose|j: int|
                                0 <= j < pkts1.len() && pkts1[j] == q;
                            assert(pkts1[j].seq_number.spec_dist(base) == k);
                        },
                        None => {},
                    }
                },
            }
        }
    }
    assert(r1 =~= r2);
}


/// The bytes of the packets among the first `n` slots, in order.
pub open spec fn spec_run_payload(slots: Seq<Option<DataPacket>>, n: int) -> Seq<u8>
    decreases n,
{
    if n <= 0 {
        Seq::<u8>::empty()
    } else {
        spec_run_payload(slots, n - 1) + (match slots[n - 1] {
            Some(p) => p.payload@,
            None => Seq::<u8>::empty(),
        })
    }
}

/// The first index at or past `k` whose slot is filled; the length if none.
pub open spec fn spec_first_present(slots: Seq<Option<DataPacket>>, k: int) -> int
    decreases slots.len() - k,
{
    if k < 0 || k >= slots.len() {
        k
    } else if slots[k] is Some {
        k
    } else {
        spec_first_present(slots, k + 1)
    }
}

/// The first index at or past `k` that does not continue a message with a
/// middle packet; the length if the run reaches the window's edge.
pub open spec fn spec_run_scan(slots: Seq<Option<DataPacket>>, k: int) -> int
    decreases slots.len() - k,
{
    if k < 0 || k >= slots.len() {
        k
    } else if slots[k] matches Some(p) && p.message_loc == PacketLocation::Middle {
        spec_run_scan(slots, k + 1)
    } else {
        k
    }
}

/// Whether `p` has passed its play-out deadline.
pub open spec fn spec_due(p: DataPacket, now_us: i64, latency_us: i64) -> bool {
    p.timestamp + latency_us <= now_us
}

/// How many slots `next_message` takes off the front of the window.
pub open spec fn spec_next_advance(
    slots: Seq<Option<DataPacket>>,
    now_us: i64,
    latency_us: i64,
) -> int {
    let cap = slots.len() as int;
    match slots[0] {
        Some(p) => {
            if p.message_loc == PacketLocation::Only {
                1
            } else if p.message_loc == PacketLocation::First {
                let e = spec_run_scan(slots, 1);
                if e < cap && (slots[e] matches Some(q) && q.message_loc == PacketLocation::Last) {
                    e + 1
                } else if spec_due(p, now_us, latency_us) {
                    e
                } else {
                    0
                }
            } else {
                if spec_due(p, now_us, latency_us) {
                    1
                } else {
                    0
                }
            }
        },
        None => {
            let f = spec_first_present(slots, 0);
            if f < cap && (slots[f] matches Some(p) && spec_due(p, now_us, latency_us)) {
                f
            } else {
                0
            }
        },
    }
}

/// What `next_message` hands the consumer, if anything.
pub open spec fn spec_next_delivery(
    slots: Seq<Option<DataPacket>>,
    now_us: i64,
    latency_us: i64,
) -> Option<Seq<u8>> {
    let cap = slots.len() as int;
    match slots[0] {
        Some(p) => {
            if p.message_loc == PacketLocation::Only {
                Some(spec_run_payload(slots, 1))
            } else if p.message_loc == PacketLocation::First {
                let e = spec_run_scan(slots, 1);
                if e < cap && (slots[e] matches Some(q) && q.message_loc == PacketLocation::Last) {
                    Some(spec_run_payload(slots, e + 1))
                } else if spec_due(p, now_us, latency_us) && !p.in_order_delivery {
                    Some(spec_run_payload(slots, e))
                } else {
                    None
                }
            } else {
                None
            }
        },
        None => None,
    }
}


/// The sequence numbers among the first `d` slots whose slot is empty.
pub open spec fn spec_missing(slots: Seq<Option<DataPacket>>, base: SeqNumber, d: int) -> Seq<
    SeqNumber,
>
    decreases d,
{
    if d <= 0 {
        Seq::<SeqNumber>::empty()
    } else {
        spec_missing(slots, base, d - 1) + (if slots[d - 1] is None {
            seq![base.spec_step(d - 1)]
        } else {
            Seq::<SeqNumber>::empty()
        })
    }
}

} // verus!
