use gorgon::jitter::{JitterBuffer, Playout};
use gorgon::packet::AudioPacket;

const PRIME: u32 = 8;

fn pkt(seq: u32) -> AudioPacket {
    AudioPacket {
        seq,
        sample_rate: 48_000,
        channels: 1,
        frames: 1,
        samples: vec![(seq as f32).to_bits()],
    }
}

#[test]
fn primes_after_prime_packets() {
    let mut jb = JitterBuffer::new(PRIME as usize);
    for s in 0..PRIME {
        assert!(!jb.insert(pkt(s)), "in-window insert must not resync");
    }
    assert!(jb.primed);
}

#[test]
fn recent_late_packet_is_dropped_not_resynced() {
    let mut jb = JitterBuffer::new(PRIME as usize);
    for s in 0..PRIME {
        jb.insert(pkt(s));
    }
    for _ in 0..3 {
        jb.drain_next(); // advance read_seq to 3
    }
    // seq 0 is now behind the read head: stale reorder, drop without resync
    assert!(!jb.insert(pkt(0)));
}

#[test]
fn large_forward_jump_resyncs_and_recovers() {
    let mut jb = JitterBuffer::new(PRIME as usize);
    for s in 0..PRIME {
        jb.insert(pkt(s));
    }
    assert!(jb.primed);

    // Sender raced far ahead (stall / restart).
    let jump = 10_000u32;
    assert!(jb.insert(pkt(jump)), "far-ahead packet should resync");
    assert!(!jb.primed, "resync re-primes from scratch");

    // Fill the cushion at the new sequence and confirm playout resumes in order.
    for s in (jump + 1)..(jump + PRIME) {
        jb.insert(pkt(s));
    }
    assert!(jb.primed);
    let (samples, _) = jb.drain_next().expect("resynced stream should drain");
    assert_eq!(f32::from_bits(samples[0]), jump as f32, "drains from the resynced sequence");
}

#[test]
fn packets_drain_in_sequence_whatever_order_they_came_in() {
    let mut jb = JitterBuffer::new(4);
    for s in [5u32, 8, 6, 7] {
        jb.insert(pkt(s));
    }
    assert!(jb.is_primed());
    assert_eq!(jb.buffered_packets(), 4);
    assert_eq!(jb.peek_shape(), Some((1, 1)));
    for s in 5u32..9 {
        let (samples, channels) = jb.drain_next().unwrap();
        assert_eq!((f32::from_bits(samples[0]), channels), (s as f32, 1));
    }
    assert_eq!(jb.peek_shape(), None);
    assert!(jb.drain_next().is_none());
    assert_eq!(jb.buffered_packets(), 0);
}

#[test]
fn sequence_numbers_wrap() {
    let mut jb = JitterBuffer::new(1);
    jb.insert(pkt(u32::MAX));
    jb.insert(pkt(0));
    assert_eq!(jb.drain_next().unwrap().0, vec![(u32::MAX as f32).to_bits()]);
    assert_eq!(jb.drain_next().unwrap().0, vec![0f32.to_bits()]);
}

#[test]
fn prime_depth_is_held_between_one_and_half_the_window() {
    let mut none = JitterBuffer::new(0);
    none.insert(pkt(0));
    assert!(none.primed);
    let mut many = JitterBuffer::new(1000);
    for s in 0..127 {
        many.insert(pkt(s));
    }
    assert!(!many.primed);
    many.insert(pkt(127));
    assert!(many.primed);
}

#[test]
fn edges_of_the_window() {
    let mut jb = JitterBuffer::new(1);
    jb.insert(pkt(1000));
    assert!(!jb.insert(pkt(1255))); // last place of the window
    assert!(!jb.insert(pkt(744))); // a window late: dropped
    assert_eq!(jb.buffered_packets(), 2);
    assert!(jb.insert(pkt(743))); // further off: starts over
    assert_eq!(jb.buffered_packets(), 1);
}

#[test]
fn lost_packet_plays_as_silence_of_the_same_shape() {
    let mut p = Playout::new(2);
    assert!(p.next_block().is_none());
    assert_eq!(p.insert(pkt(1)).newly_primed, false);
    assert_eq!(p.insert(pkt(3)).newly_primed, true);
    assert!(p.primed());
    assert_eq!(p.next_block().unwrap(), (vec![1f32.to_bits()], 1));
    assert_eq!(p.peek_shape(), Some((1, 1)));
    assert_eq!(p.next_block().unwrap(), (vec![0], 1)); // packet 2 was lost
    assert_eq!(p.next_block().unwrap(), (vec![3f32.to_bits()], 1));
    // Dry: the read position waits for packet 4.
    assert!(p.next_block().is_none());
    assert_eq!(p.peek_shape(), None);
    p.insert(pkt(4));
    assert_eq!(p.next_block().unwrap(), (vec![4f32.to_bits()], 1));
    assert!(p.insert(pkt(9000)).resynced);
    assert_eq!(p.buffered_packets(), 1);
}
