use srt::msg_number::MsgNumber;
use srt::seq_number::SeqNumber;

#[test]
fn seq_wraps_at_two_to_the_31() {
    let top = SeqNumber::new(0x7fff_ffff);
    assert_eq!(top.wrapping_add(1), SeqNumber::new(0));
    assert_eq!(top.wrapping_add(3), SeqNumber::new(2));
    assert_eq!(SeqNumber::new(5).wrapping_add(0), SeqNumber::new(5));
}

#[test]
fn seq_offset_both_directions() {
    assert_eq!(SeqNumber::new(10).wrapping_offset(-11), SeqNumber::new(0x7fff_ffff));
    assert_eq!(SeqNumber::new(10).wrapping_offset(5), SeqNumber::new(15));
    assert_eq!(SeqNumber::new(0).wrapping_offset(-1), SeqNumber::new(0x7fff_ffff));
}

#[test]
fn seq_dist_signed_half_window() {
    // Distance is how far the second argument must step to reach the first.
    assert_eq!(SeqNumber::new(15).dist(SeqNumber::new(10)), 5);
    assert_eq!(SeqNumber::new(10).dist(SeqNumber::new(15)), -5);
    // Across the wrap: the top number is one step behind zero.
    assert_eq!(SeqNumber::new(0).dist(SeqNumber::new(0x7fff_ffff)), 1);
    assert_eq!(SeqNumber::new(0x7fff_ffff).dist(SeqNumber::new(0)), -1);
    assert_eq!(SeqNumber::new(42).dist(SeqNumber::new(42)), 0);
}

#[test]
fn seq_dist_recovers_offset() {
    // Stepping by k and measuring back gives k, over the whole half-window.
    let a = SeqNumber::new(0x7fff_fff0);
    for k in [-0x4000_0000i32, -1, 0, 1, 12345, 0x3fff_ffff] {
        assert_eq!(a.wrapping_offset(k).dist(a), k);
    }
}

#[test]
fn seq_precedes_antisymmetric() {
    let a = SeqNumber::new(0x7fff_ffff);
    let b = SeqNumber::new(3);
    assert!(a.precedes(b));
    assert!(!b.precedes(a));
    assert!(!a.precedes(a));
}

#[test]
fn msg_wraps_at_two_to_the_29() {
    let top = MsgNumber::new(0x1fff_ffff);
    assert_eq!(top.wrapping_add(1), MsgNumber::new(0));
    assert_eq!(MsgNumber::new(7).wrapping_add(2), MsgNumber::new(9));
}

#[test]
fn msg_dist_signed_half_window() {
    assert_eq!(MsgNumber::new(0).dist(MsgNumber::new(0x1fff_ffff)), 1);
    assert_eq!(MsgNumber::new(0x1fff_ffff).dist(MsgNumber::new(0)), -1);
    assert_eq!(MsgNumber::new(100).dist(MsgNumber::new(90)), 10);
    assert!(MsgNumber::new(90).precedes(MsgNumber::new(100)));
}
