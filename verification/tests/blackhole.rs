use gorgon::blackhole::{
    extract_lane, hub_layout, place_lane, ChannelMap, HubLayout, LaneError, TooFewChannels,
};

#[test]
fn place_and_extract_round_trip() {
    let channels = 6;
    let frames = 4;
    let mut frame = vec![0f32; channels * frames];
    // Two stereo lanes at offsets 0 and 4.
    let a: Vec<f32> = (0..frames * 2).map(|i| i as f32).collect();
    let b: Vec<f32> = (0..frames * 2).map(|i| 100.0 + i as f32).collect();
    place_lane(&mut frame, channels, 0, 2, &a);
    place_lane(&mut frame, channels, 4, 2, &b);

    assert_eq!(extract_lane(&frame, channels, 0, 2), a);
    assert_eq!(extract_lane(&frame, channels, 4, 2), b);
    // Untouched middle channels (2,3) stay zero.
    assert_eq!(extract_lane(&frame, channels, 2, 2), vec![0.0; frames * 2]);
}

#[test]
fn channel_map_allocates_disjoint_regions() {
    let mut m = ChannelMap::new(16, 8);
    assert_eq!(m.alloc_write(2).unwrap(), 0); // record region
    assert_eq!(m.alloc_write(3).unwrap(), 2);
    assert_eq!(m.alloc_read(2).unwrap(), 8); // playback region
    assert_eq!(m.alloc_read(1).unwrap(), 10);
    // Regions are bounded.
    assert!(m.alloc_write(5).is_err()); // 5+5 > 8
    assert!(m.alloc_read(7).is_err()); // 11+7 > 16
}

#[test]
fn refused_lanes_say_why() {
    let mut m = ChannelMap::new(16, 8);
    m.alloc_write(5).unwrap();
    m.alloc_read(3).unwrap();
    let record = m.alloc_write(5).unwrap_err();
    assert_eq!(record, LaneError::Record { need: 5, past: 5, split: 8 });
    assert_eq!(
        record.message(),
        "out of BlackHole record channels: need 5 past 5, region is 0..8"
    );
    let playback = m.alloc_read(7).unwrap_err();
    assert_eq!(playback, LaneError::Playback { need: 7, past: 11, split: 8, channels: 16 });
    assert_eq!(
        playback.message(),
        "out of BlackHole playback channels: need 7 past 11, region is 8..16"
    );
    // A refusal takes nothing: what is left can still be had.
    assert_eq!(m.alloc_write(3).unwrap(), 5);
    assert_eq!(m.alloc_read(5).unwrap(), 11);
}

#[test]
fn short_block_leaves_the_rest_of_its_lane() {
    let mut frame = vec![9u32; 8];
    place_lane(&mut frame, 4, 1, 2, &[1, 2, 3]);
    assert_eq!(frame, vec![9, 1, 2, 9, 9, 3, 9, 9]);
}

#[test]
fn hub_has_the_duplex_channels_of_the_device() {
    assert_eq!(hub_layout(16, 18), Ok(HubLayout { channels: 16, split: 8 }));
    assert_eq!(hub_layout(5, 3), Ok(HubLayout { channels: 3, split: 1 }));
    let e = hub_layout(1, 2).unwrap_err();
    assert_eq!(e, TooFewChannels { channels: 1 });
    assert_eq!(e.message("BlackHole"), "device 'BlackHole' has only 1 duplex channel(s)");
}
