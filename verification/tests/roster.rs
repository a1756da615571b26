use gorgon::config::{Addr, Ip};
use gorgon::osc_msg::Advertisement;
use gorgon::packet::AudioPacket;
use gorgon::remote::MEMBER_TIMEOUT_NS;
use gorgon::ring::{capture, playback, sample_ring, SampleConsumer, SampleProducer};
use gorgon::roster::{Roster, Verdict};

const ALICE: Ip = Ip::V4(1);
const BOB: Ip = Ip::V4(2);

fn ad(node_id: u128, outputs: usize, inputs: usize) -> Advertisement {
    Advertisement {
        group: "jam".to_string(),
        node_id,
        device_name: format!("dev{node_id}"),
        outputs: (0..outputs).map(|i| format!("o{i}")).collect(),
        inputs: (0..inputs).map(|i| format!("i{i}")).collect(),
    }
}

fn hear(r: &mut Roster, a: Advertisement, from: Ip, now: u128) -> Verdict {
    r.handle_advertisement(a, from, "jam", 99, &vec![ALICE, BOB], now)
}

fn join(
    r: &mut Roster,
    a: Advertisement,
    from: Ip,
    now: u128,
) -> (Option<SampleConsumer>, Option<SampleProducer>, bool) {
    match hear(r, a, from, now) {
        Verdict::Build(joining, source, sink) => {
            let replaced = r.welcome(joining, true, true, 1, now);
            (source, sink, replaced)
        }
        _ => panic!("a member was to join"),
    }
}

fn packet(seq: u32, channels: u8, val: f32) -> Vec<u8> {
    AudioPacket {
        seq,
        sample_rate: 48_000,
        channels,
        frames: 64,
        samples: vec![val.to_bits(); 64 * channels as usize],
    }
    .encode()
}

fn plus(a: u32, b: u32) -> u32 {
    (f32::from_bits(a) + f32::from_bits(b)).to_bits()
}

#[test]
fn members_join_refresh_and_restart() {
    let mut r = Roster::new();
    assert!(matches!(hear(&mut r, ad(99, 1, 1), ALICE, 0), Verdict::Ignored)); // our echo
    assert!(matches!(hear(&mut r, ad(5, 1, 1), Ip::V4(9), 0), Verdict::Ignored));
    assert!(matches!(hear(&mut r, ad(5, 0, 0), ALICE, 0), Verdict::Ignored)); // shares nothing
    let (source, sink, replaced) = join(&mut r, ad(5, 2, 1), ALICE, 10);
    assert!(source.is_some() && sink.is_some() && !replaced);
    assert_eq!(r.members.len(), 1);
    assert_eq!(r.members[0].device_name, "dev5");
    assert_eq!((r.members[0].source_width, r.members[0].peer_inputs), (2, 1));
    assert!(matches!(hear(&mut r, ad(5, 2, 1), ALICE, 20), Verdict::Refreshed));
    assert_eq!(r.members[0].last_seen, 20);
    let (source, sink, replaced) = join(&mut r, ad(6, 1, 0), ALICE, 30);
    assert!(source.is_some() && sink.is_none() && replaced);
    assert_eq!(r.members.len(), 1);
    assert_eq!(r.members[0].node_id, 6);
}

#[test]
fn member_without_a_device_keeps_no_ring() {
    let mut r = Roster::new();
    match hear(&mut r, ad(5, 1, 1), ALICE, 0) {
        Verdict::Build(joining, _, _) => {
            r.welcome(joining, false, true, 1, 0);
        }
        _ => panic!("a member was to join"),
    }
    assert!(r.members[0].feed.is_none());
    assert!(r.members[0].intake.is_some());
}

#[test]
fn silent_members_are_forgotten() {
    let mut r = Roster::new();
    join(&mut r, ad(5, 1, 0), ALICE, 0);
    join(&mut r, ad(6, 1, 0), BOB, 1);
    assert!(r.expire(MEMBER_TIMEOUT_NS - 1).is_empty());
    let gone = r.expire(MEMBER_TIMEOUT_NS);
    assert_eq!(gone, vec![(ALICE, "dev5".to_string())]);
    assert_eq!(r.members.len(), 1);
    assert_eq!(r.members[0].ip, BOB);
    // A clock that was read before the last advertisement forgets nobody.
    assert!(r.expire(0).is_empty());
}

#[test]
fn outputs_reach_the_members_source_device() {
    let mut r = Roster::new();
    let (source, _, _) = join(&mut r, ad(5, 2, 0), ALICE, 0);
    let mut source = source.unwrap();
    assert!(r.on_outputs(&packet(0, 2, 0.5), BOB).is_none());
    assert!(r.on_outputs(b"junk", ALICE).is_none());
    let out = r.on_outputs(&packet(0, 2, 0.5), ALICE).unwrap();
    assert!(out.newly_primed && !out.resynced);
    r.on_outputs(&packet(1, 2, 0.25), ALICE);
    r.feed_sources(1920);
    let mut got = vec![9u32; 256];
    assert_eq!(playback(&mut source, &mut got), 256);
    assert_eq!(f32::from_bits(got[0]), 0.5);
    assert_eq!(f32::from_bits(got[255]), 0.25);
}

#[test]
fn what_members_play_into_us_is_summed() {
    let mut r = Roster::new();
    join(&mut r, ad(5, 0, 1), ALICE, 0);
    join(&mut r, ad(6, 0, 1), BOB, 0);
    assert!(r.on_returns(&packet(0, 1, 0.5), ALICE, false).is_none());
    assert!(r.on_returns(&packet(0, 1, 0.5), ALICE, true).is_some());
    assert!(r.on_returns(&packet(0, 1, 0.25), BOB, true).is_some());
    let (mut ring, mut cons) = sample_ring(4096, 2);
    assert!(r.feed_outputs(&mut ring, 1920, &vec![(0, 1)], 2, &plus));
    let mut got = vec![9u32; 256];
    assert_eq!(playback(&mut cons, &mut got), 128);
    assert_eq!((got[0], f32::from_bits(got[1])), (0, 0.75));
}

#[test]
fn short_return_is_reported() {
    let mut r = Roster::new();
    join(&mut r, ad(5, 0, 1), ALICE, 0);
    let short = AudioPacket {
        seq: 0,
        sample_rate: 48_000,
        channels: 1,
        frames: 1,
        samples: vec![1],
    };
    r.on_returns(&short.encode(), ALICE, true);
    let (mut ring, _cons) = sample_ring(4096, 1);
    assert!(!r.feed_outputs(&mut ring, 1920, &vec![(0, 0)], 1, &plus));
}

#[test]
fn what_is_played_into_a_member_is_sent_to_it() {
    let mut r = Roster::new();
    let (_, sink, _) = join(&mut r, ad(5, 0, 2), ALICE, 0);
    let mut sink = sink.unwrap();
    let played: Vec<u32> = (0..200).collect();
    assert_eq!(capture(&mut sink, &played), 0);
    let d = r.members[0].next_sink_packet(9002, 48_000).unwrap();
    assert_eq!(d.dest, Addr { ip: ALICE, port: 9002 });
    let p = AudioPacket::decode(&d.bytes).unwrap();
    assert_eq!((p.seq, p.sample_rate, p.channels, p.frames), (0, 48_000, 2, 64));
    assert_eq!(p.samples, played[..128].to_vec());
    assert!(r.members[0].next_sink_packet(9002, 48_000).is_none()); // 72 samples are left
    assert_eq!(r.members[0].in_seq, 1);
    join(&mut r, ad(6, 1, 0), BOB, 0);
    assert!(r.members[1].next_sink_packet(9002, 48_000).is_none()); // has no inputs
}
