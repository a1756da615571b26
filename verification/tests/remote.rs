use gorgon::config::{default_stream_port, Addr, Audio, Config, ExposedPort, Group, Ip, Remote};
use gorgon::osc_msg::Advertisement;
use gorgon::packet::AudioPacket;
use gorgon::remote::{
    gen_node_id, hostname, input_pairs, is_for_us, join_group, labelled, output_channels, port_names,
    Broadcast, JoinError,
};

fn port(name: &str, channel: u16) -> ExposedPort {
    ExposedPort { name: name.to_string(), channel }
}

fn config(outputs: Vec<ExposedPort>) -> Config {
    Config {
        bind_port: 9000,
        stream_port: default_stream_port(),
        audio: Audio {
            input_device: None,
            output_device: None,
            input_channels: None,
            output_channels: None,
            jitter_ms: None,
            mac_device: None,
        },
        peers: vec![],
        device_name: None,
        remote: Remote { outputs, inputs: vec![] },
        groups: vec![
            Group { name: "other".to_string(), members: vec![] },
            Group { name: "jam".to_string(), members: vec![Ip::V4(7), Ip::V6(8)] },
        ],
    }
}

fn words(list: &[&str]) -> Vec<String> {
    list.iter().map(|s| s.to_string()).collect()
}

#[test]
fn signals_are_listed_by_channel() {
    assert_eq!(labelled(&words(&["kick", "bass"])), "AUX0=kick, AUX1=bass");
    assert_eq!(labelled(&[]), "");
    assert_eq!(port_names(&vec![port("kick", 3), port("bass", 1)]), "kick, bass");
}

#[test]
fn node_ids_mix_time_and_process() {
    assert_eq!(gen_node_id(0, 0), 0);
    assert_eq!(gen_node_id(5, 0), 5);
    assert_eq!(gen_node_id(0, 1), (1u128 << 96) ^ 0x9E37_79B9_7F4A_7C15);
    assert_ne!(gen_node_id(77, 1), gen_node_id(77, 2));
    assert_ne!(gen_node_id(77, 1), gen_node_id(78, 1));
}

#[test]
fn host_name_ends_at_the_first_zero() {
    assert_eq!(hostname(0, b"es9-box\0junk"), "es9-box");
    assert_eq!(hostname(0, b"es9"), "es9");
    assert_eq!(hostname(0, b"\0"), "");
    assert_eq!(hostname(0, &[b'a', 0xFF, b'b', 0]), "a\u{FFFD}b");
    assert_eq!(hostname(0, "caf\u{e9}\0".as_bytes()), "caf\u{e9}");
    assert_eq!(hostname(-1, b"es9\0"), "gorgon");
}

#[test]
fn joining_looks_up_the_group() {
    let m = match join_group(&config(vec![port("kick", 0)]), "jam", "box", true) {
        Ok(m) => m,
        Err(_) => panic!("the group is there"),
    };
    assert_eq!(m.device_name, "box");
    assert_eq!(m.in_port, 9002);
    assert_eq!(m.members, vec![Ip::V4(7), Ip::V6(8)]);
    assert_eq!(
        m.out_dests,
        vec![Addr { ip: Ip::V4(7), port: 9001 }, Addr { ip: Ip::V6(8), port: 9001 }]
    );
    assert_eq!(
        m.advert_dests,
        vec![Addr { ip: Ip::V4(7), port: 9000 }, Addr { ip: Ip::V6(8), port: 9000 }]
    );
    let mut named = config(vec![port("kick", 0)]);
    named.device_name = Some("studio".to_string());
    match join_group(&named, "jam", "box", true) {
        Ok(m) => assert_eq!(m.device_name, "studio"),
        Err(_) => panic!("the group is there"),
    }
}

#[test]
fn joining_is_refused_with_a_reason() {
    let text = |r: Result<gorgon::remote::Membership, JoinError>| match r {
        Ok(_) => panic!("refused"),
        Err(e) => e.message(),
    };
    assert_eq!(
        text(join_group(&config(vec![]), "nobody", "box", true)),
        "no [groups.nobody] section in config"
    );
    assert_eq!(
        text(join_group(&config(vec![]), "jam", "box", true)),
        "config exposes no [[remote.outputs]] or [[remote.inputs]] — nothing to share"
    );
    assert!(join_group(&config(vec![]), "jam", "box", false).is_ok());
    let mut top = config(vec![]);
    top.stream_port = 65535;
    assert_eq!(
        text(join_group(&top, "jam", "box", false)),
        "stream_port must be < 65535 (we use stream_port+1 for the inputs flow)"
    );
}

#[test]
fn ports_are_held_against_the_device() {
    let ports = vec![port("kick", 3), port("bass", 9), port("lead", 12)];
    assert_eq!(output_channels(&ports, 13).unwrap_or_default(), vec![3, 9, 12]);
    assert_eq!(input_pairs(&ports, 13).unwrap_or_default(), vec![(0, 3), (1, 9), (2, 12)]);
    match output_channels(&ports, 9) {
        Err(e) => assert_eq!(e.message(), "output 'bass' channel 9 exceeds input channels (9)"),
        Ok(_) => panic!("channel 9 is past the last one"),
    }
    match input_pairs(&ports, 4) {
        Err(e) => assert_eq!(e.message(), "input 'bass' channel 9 exceeds output channels (4)"),
        Ok(_) => panic!("channel 9 is past the last one"),
    }
}

#[test]
fn outputs_are_broadcast_once_per_block() {
    let mut b = Broadcast { channels: vec![1], in_channels: 2, sample_rate: 48_000, seq: 4 };
    let block: Vec<u32> = (0..128).collect();
    let p = AudioPacket::decode(&b.send_block(&block)).unwrap();
    assert_eq!((p.seq, p.channels, p.frames), (4, 1, 64));
    assert_eq!(&p.samples[..2], &[1, 3]);
    assert_eq!(b.seq, 5);
}

#[test]
fn advertisements_for_others_are_passed_over() {
    let ad = Advertisement {
        group: "jam".to_string(),
        node_id: 5,
        device_name: "x".to_string(),
        outputs: vec![],
        inputs: vec![],
    };
    let members = vec![Ip::V4(7)];
    assert!(is_for_us(&ad, Ip::V4(7), "jam", 1, &members));
    assert!(!is_for_us(&ad, Ip::V4(7), "jazz", 1, &members));
    assert!(!is_for_us(&ad, Ip::V4(7), "jam", 5, &members)); // our own echo
    assert!(!is_for_us(&ad, Ip::V4(9), "jam", 1, &members)); // not on the roster
}
