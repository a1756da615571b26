use gorgon::blackhole::{extract_lane, HubLayout, LaneError};
use gorgon::config::{Addr, Ip};
use gorgon::hub::{HubState, LaneVerdict};
use gorgon::osc_msg::Advertisement;
use gorgon::packet::AudioPacket;
use gorgon::remote::MEMBER_TIMEOUT_NS;
use gorgon::ring::{playback, sample_ring};

const ALICE: Ip = Ip::V4(1);
const BOB: Ip = Ip::V4(2);

fn hub(n_out: usize, n_in: usize) -> HubState {
    match HubState::new(HubLayout { channels: 16, split: 8 }, n_out, n_in) {
        Ok(h) => h,
        Err(_) => panic!("there is room"),
    }
}

fn ad(node_id: u128, outputs: usize, inputs: usize) -> Advertisement {
    Advertisement {
        group: "jam".to_string(),
        node_id,
        device_name: format!("dev{node_id}"),
        outputs: (0..outputs).map(|i| format!("o{i}")).collect(),
        inputs: (0..inputs).map(|i| format!("i{i}")).collect(),
    }
}

fn hear(h: &mut HubState, a: Advertisement, from: Ip, now: u128) -> LaneVerdict {
    h.handle_advertisement(a, from, "jam", 99, &vec![ALICE, BOB], 1, now)
}

fn packet(seq: u32, channels: u8, val: f32) -> Vec<u8> {
    AudioPacket {
        seq,
        sample_rate: 48_000,
        channels,
        frames: 64,
        samples: vec![val.to_bits(); 64 * channels as usize],
    }
    .encode()
}

fn plus(a: u32, b: u32) -> u32 {
    (f32::from_bits(a) + f32::from_bits(b)).to_bits()
}

#[test]
fn our_own_lanes_come_first() {
    let h = hub(2, 3);
    assert_eq!(h.my_out, Some(8));
    assert_eq!(h.my_in, Some(0));
    let none = hub(0, 0);
    assert_eq!((none.my_out, none.my_in), (None, None));
    let layout = HubLayout { channels: 16, split: 8 };
    match HubState::new(layout, 9, 9) {
        Err(e) => {
            assert_eq!(e, LaneError::Playback { need: 9, past: 8, split: 8, channels: 16 });
        }
        Ok(_) => panic!("nine do not fit in eight"),
    }
    match HubState::new(layout, 8, 9) {
        Err(e) => assert_eq!(e, LaneError::Record { need: 9, past: 0, split: 8 }),
        Ok(_) => panic!("nine do not fit in eight"),
    }
}

#[test]
fn members_get_lanes_and_keep_them() {
    let mut h = hub(1, 1);
    assert!(matches!(hear(&mut h, ad(99, 1, 1), ALICE, 0), LaneVerdict::Ignored));
    assert!(matches!(hear(&mut h, ad(5, 0, 0), ALICE, 0), LaneVerdict::Ignored));
    assert!(matches!(hear(&mut h, ad(5, 2, 3), ALICE, 0), LaneVerdict::Joined));
    assert!(matches!(hear(&mut h, ad(6, 1, 0), BOB, 0), LaneVerdict::Joined));
    let a = &h.members[0];
    assert_eq!((a.out_lane, a.out_width, a.in_lane, a.in_width), (1, 2, 9, 3));
    let b = &h.members[1];
    assert_eq!((b.out_lane, b.out_width, b.in_lane, b.in_width), (3, 1, 0, 0));
    assert!(matches!(hear(&mut h, ad(5, 2, 3), ALICE, 7), LaneVerdict::Refreshed));
    assert_eq!(h.members[0].last_seen, 7);
    assert!(matches!(hear(&mut h, ad(8, 4, 4), ALICE, 9), LaneVerdict::Restarted));
    let a = &h.members[0];
    assert_eq!((a.out_lane, a.out_width, a.in_lane, a.in_width), (1, 2, 9, 3));
    assert_eq!((a.node_id, a.device_name.as_str(), a.last_seen), (8, "dev8", 9));
}

#[test]
fn lanes_run_out() {
    let mut h = hub(0, 0);
    match hear(&mut h, ad(5, 9, 0), ALICE, 0) {
        LaneVerdict::NoRecordLane(e) => {
            assert_eq!(e, LaneError::Record { need: 9, past: 0, split: 8 });
        }
        _ => panic!("nine do not fit in eight"),
    }
    match hear(&mut h, ad(5, 2, 9), ALICE, 0) {
        LaneVerdict::NoPlaybackLane(e) => {
            assert_eq!(e, LaneError::Playback { need: 9, past: 8, split: 8, channels: 16 });
        }
        _ => panic!("nine do not fit in eight"),
    }
    assert!(h.members.is_empty());
    // The record lane of the refused member is not given back.
    assert!(matches!(hear(&mut h, ad(6, 1, 0), BOB, 0), LaneVerdict::Joined));
    assert_eq!(h.members[0].out_lane, 2);
}

#[test]
fn everybody_plays_in_a_lane_of_their_own() {
    let mut h = hub(0, 1);
    hear(&mut h, ad(5, 2, 0), ALICE, 0);
    hear(&mut h, ad(6, 1, 0), BOB, 0);
    assert!(h.on_outputs(&packet(0, 2, 0.5), ALICE).is_some());
    assert!(h.on_outputs(&packet(0, 1, 0.25), BOB).is_some());
    assert!(h.on_outputs(&packet(0, 1, 0.25), Ip::V4(9)).is_none());
    assert!(h.on_returns(&packet(0, 1, 0.125), ALICE).is_some());
    assert!(h.on_returns(&packet(0, 1, 0.5), BOB).is_some());
    let (mut ring, mut cons) = sample_ring(4096, 16);
    assert!(h.feed_device(&mut ring, 1920, &plus));
    let mut frame = vec![9u32; 64 * 16];
    assert_eq!(playback(&mut cons, &mut frame), 64 * 16);
    assert_eq!(extract_lane(&frame, 16, 0, 1), vec![0.625f32.to_bits(); 64]);
    assert_eq!(extract_lane(&frame, 16, 1, 2), vec![0.5f32.to_bits(); 128]);
    assert_eq!(extract_lane(&frame, 16, 3, 1), vec![0.25f32.to_bits(); 64]);
    assert_eq!(extract_lane(&frame, 16, 4, 12), vec![0u32; 64 * 12]);
    // Nothing is left: the ring stays as it is.
    assert!(h.feed_device(&mut ring, 1920, &plus));
    assert_eq!(playback(&mut cons, &mut frame), 0);
}

#[test]
fn returns_are_passed_over_without_inputs() {
    let mut h = hub(1, 0);
    hear(&mut h, ad(5, 1, 0), ALICE, 0);
    assert!(h.on_returns(&packet(0, 1, 0.125), ALICE).is_none());
}

#[test]
fn short_return_stops_the_device_feed() {
    let mut h = hub(0, 1);
    hear(&mut h, ad(5, 1, 0), ALICE, 0);
    let short = AudioPacket {
        seq: 0,
        sample_rate: 48_000,
        channels: 1,
        frames: 1,
        samples: vec![1],
    };
    h.on_returns(&short.encode(), ALICE);
    let (mut ring, _cons) = sample_ring(4096, 16);
    assert!(!h.feed_device(&mut ring, 1920, &plus));
}

#[test]
fn frames_are_taken_apart() {
    let mut h = hub(1, 0);
    hear(&mut h, ad(5, 0, 2), ALICE, 0);
    hear(&mut h, ad(6, 1, 0), BOB, 0);
    let frame: Vec<u32> = (0..64 * 16).collect();
    let dests = vec![Addr { ip: ALICE, port: 9001 }, Addr { ip: BOB, port: 9001 }];
    let out = h.on_frame(&frame, &dests, 9002);
    assert_eq!(out.len(), 3);
    assert_eq!((out[0].dest, out[1].dest), (dests[0], dests[1]));
    assert_eq!(out[0].bytes, out[1].bytes);
    let own = AudioPacket::decode(&out[0].bytes).unwrap();
    assert_eq!((own.seq, own.sample_rate, own.channels), (0, 48_000, 1));
    assert_eq!(&own.samples[..3], &[8, 24, 40]);
    assert_eq!(out[2].dest, Addr { ip: ALICE, port: 9002 });
    let alice = AudioPacket::decode(&out[2].bytes).unwrap();
    assert_eq!((alice.seq, alice.channels), (0, 2));
    assert_eq!(&alice.samples[..4], &[9, 10, 25, 26]);
    assert_eq!((h.out_seq, h.members[0].in_seq, h.members[1].in_seq), (1, 1, 0));
}

#[test]
fn silent_lane_members_are_forgotten() {
    let mut h = hub(0, 0);
    hear(&mut h, ad(5, 1, 0), ALICE, 0);
    hear(&mut h, ad(6, 1, 0), BOB, 1);
    let gone = h.expire(MEMBER_TIMEOUT_NS);
    assert_eq!(gone, vec![(ALICE, "dev5".to_string())]);
    assert_eq!(h.members.len(), 1);
}
