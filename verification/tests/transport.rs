use gorgon::jitter::JitterBuffer;
use gorgon::packet::AudioPacket;
use gorgon::transport::{
    covers, ingest, packet_micros, packetize, prime_packets, rate_for_header, sum_into_output,
    target_frames, DEFAULT_JITTER_MS,
};

fn sum(a: f32, b: f32) -> f32 {
    a + b
}

#[test]
fn packet_carries_the_chosen_channels_in_order() {
    // Two frames of three channels.
    let block: Vec<u32> = vec![10, 11, 12, 20, 21, 22];
    let p = packetize(&block, 3, &[2, 0], 2, 7, 48_000);
    assert_eq!((p.seq, p.sample_rate, p.channels, p.frames), (7, 48_000, 2, 2));
    assert_eq!(p.samples, vec![12, 10, 22, 20]);
}

#[test]
fn routed_channels_sum_and_the_rest_stays() {
    // Two frames, two packet channels onto three outputs.
    let samples = [1.0f32, 2.0, 3.0, 4.0];
    let mut out = [0.5f32; 6];
    sum_into_output(&mut out, &samples, 2, 3, &[(0, 1), (1, 1), (0, 2), (5, 0), (0, 9)], 2, &sum);
    assert_eq!(out, [0.5, 3.5, 1.5, 0.5, 7.5, 3.5]);
}

#[test]
fn peers_mix_onto_one_output() {
    let mut out = [0.0f32; 2];
    sum_into_output(&mut out, &[0.25, 0.5], 1, 1, &[(0, 0)], 2, &sum);
    sum_into_output(&mut out, &[0.5, 0.25], 1, 1, &[(0, 0)], 2, &sum);
    assert_eq!(out, [0.75, 0.75]);
}

#[test]
fn coverage_is_judged_by_the_last_frame() {
    let pairs = [(1u16, 0u16), (7, 0), (0, 9)];
    assert!(covers(128, 2, 1, &pairs, 64));
    assert!(!covers(127, 2, 1, &pairs, 64));
    assert!(covers(0, 2, 1, &pairs, 0));
    assert!(covers(0, 1, 1, &pairs, 64)); // routes nothing that is there
}

#[test]
fn cushion_depths() {
    assert_eq!(DEFAULT_JITTER_MS, 40);
    assert_eq!(prime_packets(None, 48_000, 64), 30);
    assert_eq!(prime_packets(Some(10), 48_000, 64), 7);
    assert_eq!(prime_packets(Some(0), 48_000, 64), 3); // at least 5 ms
    assert_eq!(prime_packets(Some(5), 8_000, 255), 1);
    assert_eq!(target_frames(None, 48_000, 4096, 64), 1920);
    assert_eq!(target_frames(Some(500), 48_000, 4096, 64), 4032);
    assert_eq!(packet_micros(64, 48_000), 1333);
    assert_eq!(rate_for_header(96_000), 30_464);
}

#[test]
fn taking_in_a_packet_says_what_it_did() {
    let pkt = |seq: u32| AudioPacket {
        seq,
        sample_rate: 48_000,
        channels: 1,
        frames: 1,
        samples: vec![seq],
    };
    let mut jb = JitterBuffer::new(2);
    let first = ingest(&mut jb, pkt(4));
    assert!(!first.resynced && !first.newly_primed);
    let second = ingest(&mut jb, pkt(5));
    assert!(!second.resynced && second.newly_primed);
    let far = ingest(&mut jb, pkt(5000));
    assert!(far.resynced && !far.newly_primed);
}
