use gorgon::config::{Addr, Audio, Config, Ip, Peer, Remote};
use gorgon::packet::AudioPacket;
use gorgon::stream::{
    pinned_channels, plan_devices, resolve_routes, same_device, validate_routes, Counters, Heard,
    Receiver, Route, RouteError, Sender, FRAMES_PER_PACKET,
};

fn audio(input: Option<&str>, output: Option<&str>) -> Audio {
    Audio {
        input_device: input.map(|s| s.to_string()),
        output_device: output.map(|s| s.to_string()),
        input_channels: None,
        output_channels: None,
        jitter_ms: None,
        mac_device: None,
    }
}

fn ip(n: u32) -> Ip {
    Ip::V4(n)
}

fn peer(name: &str, n: u32, send: Option<Vec<u16>>, recv: Option<Vec<(u16, u16)>>) -> Peer {
    Peer { name: name.to_string(), addr: Addr { ip: ip(n), port: 9000 }, send, recv }
}

fn config(peers: Vec<Peer>) -> Config {
    Config {
        bind_port: 9000,
        stream_port: 9001,
        audio: audio(None, None),
        peers,
        device_name: None,
        remote: Remote { outputs: vec![], inputs: vec![] },
        groups: vec![],
    }
}

fn route(name: &str, n: u32, recv: Vec<(u16, u16)>) -> Route {
    Route {
        name: name.to_string(),
        dest: Addr { ip: ip(n), port: 9001 },
        ip: ip(n),
        send: vec![],
        recv,
    }
}

fn packet(seq: u32, channels: u8, val: f32) -> Vec<u8> {
    AudioPacket {
        seq,
        sample_rate: 48_000,
        channels,
        frames: FRAMES_PER_PACKET,
        samples: vec![val.to_bits(); 64 * channels as usize],
    }
    .encode()
}

fn plus(a: u32, b: u32) -> u32 {
    (f32::from_bits(a) + f32::from_bits(b)).to_bits()
}

#[test]
fn flags_win_over_configuration() {
    let plan = plan_devices(Some("A".to_string()), None, &audio(Some("B"), Some("C")));
    assert_eq!(plan.input.as_deref(), Some("A"));
    assert_eq!(plan.output.as_deref(), Some("C"));
    assert!(!plan.shared);
    let both = plan_devices(None, None, &audio(Some("ES9"), Some("ES9")));
    assert!(both.shared);
    let none = plan_devices(None, None, &audio(None, None));
    assert!(none.input.is_none() && none.output.is_none() && !none.shared);
    assert_eq!(pinned_channels(Some(2), Some(4)), Some(2));
    assert_eq!(pinned_channels(None, Some(4)), Some(4));
    assert_eq!(pinned_channels(None, None), None);
    assert!(!same_device(&None, &None));
    assert!(!same_device(&Some("x".to_string()), &None));
}

#[test]
fn routes_default_to_positions() {
    let cfg = config(vec![
        peer("alice", 1, None, None),
        peer("bob", 2, Some(vec![3, 1]), Some(vec![(0, 8)])),
    ]);
    let routes = resolve_routes(&cfg, 3, 2);
    assert_eq!(routes.len(), 2);
    assert_eq!(routes[0].dest, Addr { ip: ip(1), port: 9001 });
    assert_eq!(routes[0].ip, ip(1));
    assert_eq!(routes[0].send, vec![0, 1, 2]);
    assert_eq!(routes[0].recv, vec![(0, 0), (1, 1)]);
    assert!(validate_routes(&routes[..1].iter().map(|r| Route {
        name: r.name.clone(),
        dest: r.dest,
        ip: r.ip,
        send: r.send.clone(),
        recv: r.recv.clone(),
    }).collect(), 3, 2).is_ok());
    assert_eq!(routes[1].name, "bob");
    assert_eq!(routes[1].send, vec![3, 1]);
    assert_eq!(routes[1].recv, vec![(0, 8)]);
}

#[test]
fn routes_are_held_against_the_device() {
    let cfg = config(vec![
        peer("alice", 1, None, None),
        peer("bob", 2, Some(vec![0, 4, 5]), Some(vec![(0, 9)])),
    ]);
    let routes = resolve_routes(&cfg, 6, 10);
    assert!(validate_routes(&routes, 6, 10).is_ok());
    let send = validate_routes(&routes, 4, 2);
    match &send {
        // alice's own routes are the first that do not fit.
        Err(RouteError::Send { peer, channel, in_channels }) => {
            assert_eq!((peer.as_str(), *channel, *in_channels), ("alice", 4, 4));
        }
        _ => panic!("channel 4 is past the last one"),
    }
    assert_eq!(
        send.unwrap_err().message(),
        "peer 'alice': send channel 4 exceeds input channels (4)"
    );
    let bob = resolve_routes(&config(vec![peer("bob", 2, Some(vec![0]), Some(vec![(0, 9)]))]), 4, 4);
    match validate_routes(&bob, 4, 4) {
        Err(e) => {
            assert_eq!(e.message(), "peer 'bob': output channel 9 exceeds output channels (4)");
        }
        Ok(_) => panic!("output 9 is past the last one"),
    }
}

#[test]
fn each_peer_is_sent_its_channels() {
    let cfg = config(vec![
        peer("alice", 1, Some(vec![1]), None),
        peer("bob", 2, Some(vec![1, 0]), None),
    ]);
    let mut sender = Sender {
        routes: resolve_routes(&cfg, 2, 2),
        in_channels: 2,
        sample_rate: 48_000,
        seq: u32::MAX,
    };
    let mut block: Vec<u32> = Vec::new();
    for f in 0..64 {
        block.push(2 * f);
        block.push(2 * f + 1);
    }
    let out = sender.send_block(&block);
    assert_eq!(out.len(), 2);
    assert_eq!(out[0].dest, Addr { ip: ip(1), port: 9001 });
    let a = AudioPacket::decode(&out[0].bytes).unwrap();
    assert_eq!((a.seq, a.sample_rate, a.channels, a.frames), (u32::MAX, 48_000, 1, 64));
    assert_eq!(&a.samples[..3], &[1, 3, 5]);
    let b = AudioPacket::decode(&out[1].bytes).unwrap();
    assert_eq!(&b.samples[..4], &[1, 0, 3, 2]);
    assert_eq!(sender.seq, 0);
}

#[test]
fn peers_are_told_apart_by_address() {
    let routes = vec![route("alice", 1, vec![(0, 0)]), route("bob", 2, vec![(0, 0), (0, 1)])];
    let mut r = Receiver::new(routes, 2, 1);
    assert!(r.drain(&plus).is_none());
    assert_eq!(
        r.on_datagram(&packet(0, 1, 0.25), ip(1)),
        Heard::Packet { route: 0, resynced: false, newly_primed: true }
    );
    assert_eq!(
        r.on_datagram(&packet(9, 1, 0.5), ip(2)),
        Heard::Packet { route: 1, resynced: false, newly_primed: true }
    );
    assert_eq!(r.on_datagram(b"junk", ip(2)), Heard::Bad);
    assert_eq!(r.on_datagram(&packet(0, 1, 1.0), ip(3)), Heard::Unknown { first: true });
    assert_eq!(r.on_datagram(b"junk", ip(3)), Heard::Unknown { first: false });
    assert_eq!(r.counters, Counters { ok: 2, unknown: 2, bad: 1, resyncs: 0 });
    assert!(r.drainable());
    let block = r.drain(&plus).unwrap();
    assert_eq!(block.len(), 128);
    assert_eq!(f32::from_bits(block[0]), 0.75); // both on output 0
    assert_eq!(f32::from_bits(block[1]), 0.5);
    // Primed peers whose packet is missing add nothing.
    assert_eq!(r.drain(&plus).unwrap(), vec![0u32; 128]);
}

#[test]
fn last_route_of_an_address_gets_its_packets() {
    let routes = vec![route("old", 1, vec![(0, 0)]), route("new", 1, vec![(0, 0)])];
    let mut r = Receiver::new(routes, 1, 1);
    match r.on_datagram(&packet(0, 1, 0.25), ip(1)) {
        Heard::Packet { route, .. } => assert_eq!(route, 1),
        _ => panic!("the packet is good"),
    }
}

#[test]
fn short_packet_cannot_be_drained() {
    let mut r = Receiver::new(vec![route("alice", 1, vec![(0, 0)])], 1, 1);
    let short = AudioPacket {
        seq: 0,
        sample_rate: 48_000,
        channels: 1,
        frames: 2,
        samples: vec![1, 2],
    };
    r.on_datagram(&short.encode(), ip(1));
    assert!(!r.drainable());
}

#[test]
fn desync_is_counted() {
    let mut r = Receiver::new(vec![route("alice", 1, vec![(0, 0)])], 1, 1);
    r.on_datagram(&packet(0, 1, 0.25), ip(1));
    assert_eq!(
        r.on_datagram(&packet(50_000, 1, 0.25), ip(1)),
        Heard::Packet { route: 0, resynced: true, newly_primed: false }
    );
    assert_eq!(r.counters.resyncs, 1);
}
