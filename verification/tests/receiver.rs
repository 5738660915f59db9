use srt::receiver::{full_ack_body, light_ack_body, smooth_rtt, smooth_rtt_variance, AckState, RateEstimator, ReceiverLossList};
use srt::seq_number::SeqNumber;

#[test]
fn acks_are_monotonic() {
    let mut acks = AckState::new(SeqNumber::new(100));
    let a1 = acks.make_ack(SeqNumber::new(100), 10);
    let a2 = acks.make_ack(SeqNumber::new(105), 20);
    let a3 = acks.make_ack(SeqNumber::new(105), 30);
    let a4 = acks.make_ack(SeqNumber::new(200), 40);
    let emitted = [a1, a2, a3, a4];
    for w in emitted.windows(2) {
        assert!(w[1].recvd_until.dist(w[0].recvd_until) >= 0);
    }
    assert_ne!(a1.ack_seq, a2.ack_seq);
}

#[test]
fn ack2_yields_rtt_sample() {
    let mut acks = AckState::new(SeqNumber::new(0));
    let a = acks.make_ack(SeqNumber::new(5), 1_000);
    let b = acks.make_ack(SeqNumber::new(6), 2_000);
    assert_eq!(acks.on_ack2(a.ack_seq, 21_000), Some(20_000));
    assert_eq!(acks.on_ack2(b.ack_seq, 21_000), Some(19_000));
    assert_eq!(acks.on_ack2(-1, 21_000), None);
}

#[test]
fn rtt_smoothing_formulas() {
    // rtt <- 7/8 rtt + 1/8 sample; variance <- 3/4 var + 1/4 |rtt - sample|.
    assert_eq!(smooth_rtt(100_000, 20_000), 90_000);
    assert_eq!(smooth_rtt(0, 80_000), 10_000);
    assert_eq!(smooth_rtt_variance(1_000, 100_000, 20_000), 20_750);
    assert_eq!(smooth_rtt_variance(4_000, 20_000, 100_000), 23_000);
}

#[test]
fn ack_seq_numbers_count_up() {
    let mut acks = AckState::new(SeqNumber::new(0));
    let a = acks.make_ack(SeqNumber::new(1), 0);
    let b = acks.make_ack(SeqNumber::new(2), 1);
    let c = acks.make_ack(SeqNumber::new(2), 2);
    assert_eq!(a.ack_seq, 1);
    assert_eq!(b.ack_seq, 2);
    assert_eq!(c.ack_seq, 3);
}

#[test]
fn ack_history_keeps_newest_1024() {
    let mut acks = AckState::new(SeqNumber::new(0));
    for i in 0..1030u32 {
        let r = acks.make_ack(SeqNumber::new(i + 1), i as i64);
        // The record just made is always findable...
        assert_eq!(acks.on_ack2(r.ack_seq, i as i64), Some(0));
    }
    // ...but the very first ACK has been evicted.
    assert_eq!(acks.on_ack2(1, 2_000), None);
    // The newest still matches.
    assert_eq!(acks.on_ack2(1030, 2_029), Some(1_000));
}

#[test]
fn rate_estimator_smooths_arrivals() {
    let mut est = RateEstimator::new();
    // Packets one millisecond apart; the smoothed mean climbs toward a
    // thousand microseconds, so the rate lands a little above a thousand
    // packets per second (integer division floors the mean slightly low).
    let mut now = 0i64;
    est.on_arrival(SeqNumber::new(2), now);
    for k in 0..200u32 {
        now += 1_000;
        est.on_arrival(SeqNumber::new(3 + k), now);
    }
    let rate = est.recv_rate_pps();
    assert!(rate >= 1_000 && rate <= 1_010, "rate was {rate}");
}

#[test]
fn rate_estimator_probe_pairs_measure_capacity() {
    let mut est = RateEstimator::new();
    // Only the 16k/16k+1 pairs speak of capacity: 100 microseconds apart
    // here, so the estimate climbs toward ten thousand packets per second,
    // landing a little above it (integer division floors the mean).
    est.on_arrival(SeqNumber::new(16), 1_000);
    est.on_arrival(SeqNumber::new(17), 1_100);
    for _ in 0..100 {
        est.on_arrival(SeqNumber::new(32), 2_000);
        est.on_arrival(SeqNumber::new(33), 2_100);
    }
    let cap = est.est_link_cap_pps();
    assert!(cap >= 10_000 && cap <= 10_800, "capacity was {cap}");
    // A lone second-of-pair with no first contributes nothing.
    let mut est2 = RateEstimator::new();
    est2.on_arrival(SeqNumber::new(33), 5_000);
    assert_eq!(est2.est_link_cap_pps(), 0);
}

#[test]
fn ack_bodies_light_and_full() {
    let light = light_ack_body(77);
    assert_eq!(light.recvd_until, 77);
    assert!(light.rtt.is_none() && light.est_link_cap.is_none());
    let full = full_ack_body(78, 10_000, 500, 4096, 12_000, 100_000);
    assert_eq!(full.recvd_until, 78);
    assert_eq!(full.rtt, Some(10_000));
    assert_eq!(full.rtt_variance, Some(500));
    assert_eq!(full.buffer_available, Some(4096));
    assert_eq!(full.packet_recv_rate, Some(12_000));
    assert_eq!(full.est_link_cap, Some(100_000));
    // A measurement too large for the wire word saturates.
    let wide = full_ack_body(0, 99_999_999_999, 0, 0, 0, 0);
    assert_eq!(wide.rtt, Some(0x7fff_ffff));
}

#[test]
fn loss_list_feedback_cycle() {
    let mut losses = ReceiverLossList::new();
    losses.register(&vec![SeqNumber::new(5), SeqNumber::new(7)], 1_000);
    // Not yet due: the feedback just went out at registration.
    assert_eq!(losses.feedback_due(1_500, 1_000), Vec::<SeqNumber>::new());
    // Due: both holes ride the next NAK.
    assert_eq!(
        losses.feedback_due(2_000, 1_000),
        vec![SeqNumber::new(5), SeqNumber::new(7)]
    );
    // Their clocks were reset by that report.
    assert_eq!(losses.feedback_due(2_500, 1_000), Vec::<SeqNumber>::new());
    // Packet 5 arrives; only 7 stays on the list.
    losses.on_arrival(SeqNumber::new(5));
    assert_eq!(losses.feedback_due(4_000, 1_000), vec![SeqNumber::new(7)]);
}
