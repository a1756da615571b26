use gorgon::jitter::Playout;
use gorgon::packet::AudioPacket;
use gorgon::ring::{capture, playback, refill, refill_step, sample_ring, take_block, RefillStep};

fn playout(blocks: u32) -> Playout {
    let mut p = Playout::new(1);
    for seq in 0..blocks {
        p.insert(AudioPacket {
            seq,
            sample_rate: 48_000,
            channels: 2,
            frames: 2,
            samples: vec![10 * seq, 10 * seq + 1, 10 * seq + 2, 10 * seq + 3],
        });
    }
    p
}

#[test]
fn samples_come_out_as_they_went_in() {
    let (mut p, mut c) = sample_ring(4, 2);
    assert_eq!(capture(&mut p, &[1, 2, 3, 4, 5]), 0);
    assert_eq!(capture(&mut p, &[6, 7, 8, 9, 10]), 2); // two find no room
    let mut block = [0u32; 3];
    assert!(take_block(&mut c, &mut block));
    assert_eq!(block, [1, 2, 3]);
    let mut wide = [9u32; 6];
    assert!(!take_block(&mut c, &mut wide)); // only five wait
    assert_eq!(wide, [9; 6]);
    assert_eq!(playback(&mut c, &mut wide), 5);
    assert_eq!(wide, [4, 5, 6, 7, 8, 0]); // then silence
    assert_eq!(playback(&mut c, &mut wide), 0);
    assert_eq!(wide, [0; 6]);
}

#[test]
fn refill_stops_at_the_target() {
    let (mut p, mut c) = sample_ring(16, 2);
    let mut source = playout(6);
    assert!(refill(&mut p, 7, 4, &mut source));
    // Two blocks bring eight samples: the target is reached.
    assert_eq!(source.buffered_packets(), 4);
    let mut got = [9u32; 9];
    assert_eq!(playback(&mut c, &mut got), 8);
    assert_eq!(got, [0, 1, 2, 3, 10, 11, 12, 13, 0]);
}

#[test]
fn refill_stays_within_a_block_of_the_target() {
    for target in 1..12 {
        let (mut p, mut c) = sample_ring(16, 2);
        let mut source = playout(6);
        assert!(refill(&mut p, target, 4, &mut source));
        assert!(refill(&mut p, target, 4, &mut source)); // full enough: nothing is added
        let mut got = [9u32; 32];
        let held = playback(&mut c, &mut got);
        assert!(target <= held && held < target + 4);
    }
}

#[test]
fn refill_stops_when_no_whole_block_fits() {
    let (mut p, mut c) = sample_ring(3, 2);
    let mut source = playout(6);
    assert!(refill(&mut p, 100, 4, &mut source));
    let mut got = [9u32; 6];
    assert_eq!(playback(&mut c, &mut got), 4);
}

#[test]
fn refill_stops_when_the_source_is_dry() {
    let (mut p, mut c) = sample_ring(64, 2);
    let mut source = playout(2);
    assert!(refill(&mut p, 100, 4, &mut source));
    let mut got = [9u32; 9];
    assert_eq!(playback(&mut c, &mut got), 8);
    assert!(source.next_block().is_none());
}

#[test]
fn refill_asks_only_where_the_ring_wants_a_block() {
    let mut source = playout(2);
    assert!(matches!(refill_step(&mut source, 3, 0, 10, 4), RefillStep::Stop));
    assert!(matches!(refill_step(&mut source, 4, 10, 10, 4), RefillStep::Stop));
    assert_eq!(source.buffered_packets(), 2);
    match refill_step(&mut source, 4, 9, 10, 4) {
        RefillStep::Push(block) => assert_eq!(block, vec![0, 1, 2, 3]),
        _ => panic!("a block was due"),
    }
    assert_eq!(source.buffered_packets(), 1);
}
