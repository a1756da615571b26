use gorgon::audio::{
    find_by_name, find_input_device, find_output_device, list_devices, max_input_channels,
    max_output_channels, preferred_sample_rate, AudioError, DeviceChoice,
};
use gorgon::cli::parse_on_off;
use gorgon::ring::{capture, sample_ring};
use gorgon::vdev::{channel_positions, feed_source, frame_stride, node_properties, usable_bytes};

fn words(list: &[&str]) -> Vec<String> {
    list.iter().map(|s| s.to_string()).collect()
}

#[test]
fn devices_are_found_by_preference() {
    let names = words(&["hw:CARD=ES9", "plughw:CARD=ES9", "default"]);
    assert_eq!(find_by_name(&names, "ES9"), Some(1)); // converting one first
    assert_eq!(find_by_name(&names, "hw:CARD=ES9"), Some(0)); // exact name wins
    assert_eq!(find_by_name(&names, "def"), Some(2));
    assert_eq!(find_by_name(&names, "ES8"), None);
    assert_eq!(find_by_name(&names, ""), Some(1));
}

#[test]
fn device_choice_or_reason() {
    let names = words(&["ES9"]);
    match find_input_device(Some("ES"), &names, false) {
        Ok(DeviceChoice::Named(n)) => assert_eq!(n, "ES9"),
        _ => panic!("it is there"),
    }
    assert!(matches!(find_input_device(None, &names, true), Ok(DeviceChoice::Default)));
    assert!(matches!(find_output_device(None, &names, true), Ok(DeviceChoice::Default)));
    let text = |r: Result<DeviceChoice, AudioError>| match r {
        Ok(_) => panic!("there is none"),
        Err(e) => e.message(),
    };
    assert_eq!(text(find_input_device(None, &names, false)), "no default input device");
    assert_eq!(text(find_output_device(None, &names, false)), "no default output device");
    assert_eq!(text(find_input_device(Some("x"), &names, true)), "no input device matching 'x'");
    assert_eq!(text(find_output_device(Some("x"), &names, true)), "no output device matching 'x'");
}

#[test]
fn channel_counts_and_rates() {
    assert_eq!(max_input_channels(&[2, 16, 8]).unwrap_or(0), 16);
    assert_eq!(max_output_channels(&[1]).unwrap_or(0), 1);
    assert_eq!(
        max_input_channels(&[]).map_err(|e| e.message()),
        Err("no supported input configs".to_string())
    );
    assert_eq!(
        max_output_channels(&[]).map_err(|e| e.message()),
        Err("no supported output configs".to_string())
    );
    assert_eq!(preferred_sample_rate(&[(8_000, 44_100), (48_000, 96_000)]), Some(48_000));
    assert_eq!(preferred_sample_rate(&[(8_000, 44_100)]), None);
    assert_eq!(preferred_sample_rate(&[]), None);
}

#[test]
fn devices_are_listed_once() {
    assert_eq!(list_devices(&words(&["a", "b", "a", "c", "b"])), words(&["a", "b", "c"]));
}

#[test]
fn gate_words() {
    for on in ["on", "1", "true"] {
        assert_eq!(parse_on_off(on), Ok(true));
    }
    for off in ["off", "0", "false"] {
        assert_eq!(parse_on_off(off), Ok(false));
    }
    assert_eq!(parse_on_off("maybe"), Err("expected on|off, got 'maybe'".to_string()));
}

#[test]
fn source_buffer_holds_whole_frames() {
    let (mut p, mut c) = sample_ring(16, 1);
    capture(&mut p, &[1, 2, 3, 4]);
    let mut buffer = [9u32; 8];
    assert_eq!(feed_source(&mut c, &mut buffer, 3), 24);
    assert_eq!(buffer, [1, 2, 3, 4, 0, 0, 9, 9]);
    assert_eq!(usable_bytes(10, 100), 8);
    assert_eq!(usable_bytes(100, 7), 4);
    assert_eq!(frame_stride(3), 12);
}

#[test]
fn nodes_present_themselves() {
    let p = node_properties("alice", "Audio/Source");
    assert_eq!(p.len(), 10);
    assert!(p.contains(&("node.name".to_string(), "alice".to_string())));
    assert!(p.contains(&("media.class".to_string(), "Audio/Source".to_string())));
    assert!(p.contains(&("channelmix.disable".to_string(), "true".to_string())));
    let pos = channel_positions(3, 1000, 0);
    assert_eq!(pos.len(), 64);
    assert_eq!(&pos[..4], &[1000, 1001, 1002, 0]);
    assert_eq!(channel_positions(100, 1000, 0)[63], 1063);
}
