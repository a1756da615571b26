use gorgon::packet::AudioPacket;

fn packet() -> AudioPacket {
    AudioPacket {
        seq: 0x0102_0304,
        sample_rate: 48_000,
        channels: 2,
        frames: 1,
        samples: vec![1f32.to_bits(), 0x8000_0001],
    }
}

#[test]
fn packet_has_its_wire_layout() {
    let bytes = packet().encode();
    let want: Vec<u8> = vec![
        0x47, 0x4F, 0x52, 0x44, 1, 2, 3, 4, 0xBB, 0x80, 2, 1, 0, 0, 0x80, 0x3F, 1, 0, 0, 0x80,
    ];
    assert_eq!(bytes, want);
    assert_eq!(AudioPacket::wire_len(1, 2), 20);
    assert_eq!(AudioPacket::wire_len(64, 64), 16396);
}

#[test]
fn samples_arrive_bit_for_bit() {
    let mut bytes = packet().encode();
    bytes.extend_from_slice(b"and more"); // what follows is passed over
    let back = AudioPacket::decode(&bytes).unwrap();
    assert_eq!(back.seq, 0x0102_0304);
    assert_eq!(back.sample_rate, 48_000);
    assert_eq!((back.channels, back.frames), (2, 1));
    assert_eq!(back.samples, vec![1f32.to_bits(), 0x8000_0001]);
}

#[test]
fn malformed_datagrams_are_refused() {
    let good = packet().encode();
    assert!(AudioPacket::decode(&good[..11]).is_none());
    assert!(AudioPacket::decode(&good[..19]).is_none());
    let mut magic = good.clone();
    magic[0] = 0;
    assert!(AudioPacket::decode(&magic).is_none());
    assert!(AudioPacket::decode(&[]).is_none());
}

#[test]
fn what_was_read_encodes_to_what_it_was_read_from() {
    let mut bytes = packet().encode();
    let len = bytes.len();
    bytes.push(7);
    let back = AudioPacket::decode(&bytes).unwrap();
    assert_eq!(back.encode(), bytes[..len].to_vec());
}

#[test]
fn packet_short_of_its_header_is_refused() {
    let mut p = packet();
    p.frames = 2;
    assert!(AudioPacket::decode(&p.encode()).is_none());
}
