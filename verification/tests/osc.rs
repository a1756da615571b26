use gorgon::config::{ExposedPort, Remote};
use gorgon::network;
use gorgon::osc_msg::{
    advertisement, cv, describe, gate, note, parse_advertisement, Arg, FloatBits, Message, Packet,
};

fn remote() -> Remote {
    Remote {
        outputs: vec![
            ExposedPort { name: "kick".into(), channel: 0 },
            ExposedPort { name: "bass".into(), channel: 1 },
        ],
        inputs: vec![ExposedPort { name: "return_l".into(), channel: 8 }],
    }
}

fn show(v: FloatBits) -> String {
    match v {
        FloatBits::Single(b) => format!("{:.4}", f32::from_bits(b)),
        FloatBits::Double(b) => format!("{:.4}", f64::from_bits(b)),
    }
}

fn message(addr: &str, args: Vec<Arg>) -> Packet {
    Packet::Message(Message { addr: addr.to_string(), args })
}

#[test]
fn advertisement_round_trips() {
    let remote = remote();
    let pkt = advertisement("modular-jam", 0xDEAD_BEEF, "ryan-es9", &remote);
    let ad = parse_advertisement(&pkt).expect("advertisement should parse");
    assert_eq!(ad.group, "modular-jam");
    assert_eq!(ad.node_id, 0xDEAD_BEEF);
    assert_eq!(ad.device_name, "ryan-es9");
    assert_eq!(ad.outputs, vec!["kick", "bass"]);
    assert_eq!(ad.inputs, vec!["return_l"]);
}

#[test]
fn ignores_non_advertisement() {
    // Other OSC messages (and other addresses) must not parse as ads.
    assert!(parse_advertisement(&cv("pitch", 0.5f32.to_bits())).is_none());
}

#[test]
fn malformed_advertisements_are_ignored() {
    let id = || Arg::Text("ff".to_string());
    let name = || Arg::Text("es9".to_string());
    let good = vec![id(), name(), Arg::Int(1), Arg::Int(0), Arg::Text("kick".to_string())];
    let ad = parse_advertisement(&message("/gorgon/adv/jam", good)).unwrap();
    assert_eq!((ad.node_id, ad.outputs), (255, vec!["kick".to_string()]));
    let bad: Vec<(&str, Vec<Arg>)> = vec![
        ("/gorgon/adv/", vec![id(), name(), Arg::Int(0), Arg::Int(0)]),
        ("/gorgon/adv", vec![id(), name(), Arg::Int(0), Arg::Int(0)]),
        ("/gorgon/adv/jam", vec![Arg::Text("xyz".to_string()), name(), Arg::Int(0), Arg::Int(0)]),
        ("/gorgon/adv/jam", vec![Arg::Int(1), name(), Arg::Int(0), Arg::Int(0)]),
        ("/gorgon/adv/jam", vec![id(), Arg::Int(1), Arg::Int(0), Arg::Int(0)]),
        ("/gorgon/adv/jam", vec![id(), name(), Arg::Int(-1), Arg::Int(0)]),
        ("/gorgon/adv/jam", vec![id(), name(), Arg::Int(0), Arg::Bool(true)]),
        ("/gorgon/adv/jam", vec![id(), name(), Arg::Int(1), Arg::Int(0)]),
        ("/gorgon/adv/jam", vec![id(), name(), Arg::Int(1), Arg::Int(0), Arg::Int(3)]),
        ("/gorgon/adv/jam", vec![id()]),
    ];
    for (addr, args) in bad {
        assert!(parse_advertisement(&message(addr, args)).is_none());
    }
    assert!(parse_advertisement(&Packet::Bundle((0, 1), vec![])).is_none());
}

#[test]
fn control_messages_have_their_addresses() {
    assert_eq!(describe(&cv("pitch", 0.75f32.to_bits()), &show), "/cv/pitch [0.7500]");
    assert_eq!(describe(&gate("trigger", true), &show), "/gate/trigger [1]");
    assert_eq!(describe(&gate("trigger", false), &show), "/gate/trigger [0]");
    assert_eq!(describe(&note("bass", 60), &show), "/note/bass [60]");
}

#[test]
fn every_kind_of_argument_is_described() {
    let args = vec![
        Arg::Int(-5),
        Arg::Long(i64::MIN),
        Arg::Text("hi".to_string()),
        Arg::Bool(true),
        Arg::Double(2.5f64.to_bits()),
        Arg::Nil,
        Arg::Array(vec![Arg::Int(1)]),
    ];
    let inner = message("/x", args);
    let bundle = Packet::Bundle((0, 1), vec![inner, message("/y", vec![])]);
    assert_eq!(
        describe(&bundle, &show),
        "bundle(/x [-5, -9223372036854775808, \"hi\", true, 2.5000, ?, ?] | /y [])"
    );
}

#[test]
fn advertisement_survives_the_wire() {
    let bytes = network::announce("modular-jam", 7, "ryan-es9", &remote());
    let ad = network::hear(&bytes).unwrap();
    assert_eq!(ad.group, "modular-jam");
    assert_eq!(ad.node_id, 7);
    assert_eq!(ad.device_name, "ryan-es9");
    assert_eq!(ad.outputs, vec!["kick", "bass"]);
    assert_eq!(ad.inputs, vec!["return_l"]);
    assert!(network::hear(&bytes[..10]).is_none());
}

#[test]
fn messages_survive_the_wire() {
    let args = vec![
        Arg::Int(-5),
        Arg::Float(0.25f32.to_bits()),
        Arg::Text("hi".to_string()),
        Arg::Long(1 << 40),
        Arg::Double((-2.5f64).to_bits()),
        Arg::Bool(false),
    ];
    let bytes = network::encode(&message("/raw", args));
    assert_eq!(bytes.len() % 4, 0);
    assert_eq!(&bytes[..5], b"/raw\0");
    let back = network::decode(&bytes).unwrap();
    assert_eq!(describe(&back, &show), "/raw [-5, 0.2500, \"hi\", 1099511627776, -2.5000, false]");
    match back {
        Packet::Message(m) => {
            assert_eq!(m.addr, "/raw");
            assert_eq!(m.args.len(), 6);
        }
        Packet::Bundle(_, _) => panic!("a message went out"),
    }
}

#[test]
fn what_is_not_osc_is_refused() {
    assert!(network::decode(b"").is_none());
    assert!(network::decode(b"GORD").is_none());
}

#[test]
fn bundles_and_unused_types_are_read() {
    let inner = rosc::OscPacket::Message(rosc::OscMessage {
        addr: "/in".to_string(),
        args: vec![rosc::OscType::Nil, rosc::OscType::Bool(true)],
    });
    let bundle = rosc::OscPacket::Bundle(rosc::OscBundle {
        timetag: rosc::OscTime { seconds: 1, fractional: 2 },
        content: vec![inner],
    });
    let bytes = rosc::encoder::encode(&bundle).unwrap();
    let packet = network::decode(&bytes).unwrap();
    assert_eq!(describe(&packet, &show), "bundle(/in [?, true])");
    match packet {
        Packet::Bundle(time, content) => assert_eq!((time, content.len()), ((1, 2), 1)),
        Packet::Message(_) => panic!("a bundle came in"),
    }
}

#[test]
fn whatever_comes_in_can_be_sent_on() {
    let args = vec![
        rosc::OscType::Int(-1),
        rosc::OscType::Float(0.5),
        rosc::OscType::String("hi".to_string()),
        rosc::OscType::Blob(vec![1, 2, 3]),
        rosc::OscType::Time(rosc::OscTime { seconds: 7, fractional: 8 }),
        rosc::OscType::Long(1 << 33),
        rosc::OscType::Double(-0.25),
        rosc::OscType::Char('x'),
        rosc::OscType::Color(rosc::OscColor { red: 1, green: 2, blue: 3, alpha: 4 }),
        rosc::OscType::Midi(rosc::OscMidiMessage { port: 5, status: 6, data1: 7, data2: 8 }),
        rosc::OscType::Bool(true),
        rosc::OscType::Array(rosc::OscArray {
            content: vec![
                rosc::OscType::Nil,
                rosc::OscType::Array(rosc::OscArray { content: vec![rosc::OscType::Int(9)] }),
            ],
        }),
        rosc::OscType::Nil,
        rosc::OscType::Inf,
    ];
    let inner = rosc::OscPacket::Message(rosc::OscMessage { addr: "/all".to_string(), args });
    let nested = rosc::OscPacket::Bundle(rosc::OscBundle {
        timetag: rosc::OscTime { seconds: 0, fractional: 1 },
        content: vec![],
    });
    let bundle = rosc::OscPacket::Bundle(rosc::OscBundle {
        timetag: rosc::OscTime { seconds: 1, fractional: 2 },
        content: vec![inner, nested],
    });
    let bytes = rosc::encoder::encode(&bundle).unwrap();
    let packet = network::decode(&bytes).unwrap();
    assert_eq!(network::encode(&packet), bytes);
}

#[test]
fn different_arguments_are_different_on_the_wire() {
    let sent = |arg: Arg| network::encode(&message("/x", vec![arg]));
    assert_eq!(sent(Arg::Nil), b"/x\0\0,N\0\0".to_vec());
    assert_eq!(sent(Arg::Inf), b"/x\0\0,I\0\0".to_vec());
    assert_eq!(sent(Arg::Color(1, 2, 3, 4)), b"/x\0\0,r\0\0\x01\x02\x03\x04".to_vec());
    assert_eq!(sent(Arg::Midi(1, 2, 3, 4)), b"/x\0\0,m\0\0\x01\x02\x03\x04".to_vec());
    assert_eq!(sent(Arg::Char('A')), b"/x\0\0,c\0\0\0\0\0A".to_vec());
    assert_eq!(sent(Arg::Array(vec![Arg::Bool(false)])), b"/x\0\0,[F]\0\0\0\0".to_vec());
    let empty = network::encode(&Packet::Bundle((1, 2), vec![]));
    assert_eq!(empty, b"#bundle\0\0\0\0\x01\0\0\0\x02".to_vec());
}

#[test]
fn bytes_are_those_of_the_osc_crate() {
    let ours = network::encode(&gate("trigger", true));
    let theirs = rosc::encoder::encode(&rosc::OscPacket::Message(rosc::OscMessage {
        addr: "/gate/trigger".to_string(),
        args: vec![rosc::OscType::Int(1)],
    }))
    .unwrap();
    assert_eq!(ours, theirs);
}
