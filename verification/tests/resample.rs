use gorgon::packet::AudioPacket;
use gorgon::resample::{Dll, Produced, Resampler, Taps, UNITY};

const FPP: u8 = 64;
const PRIME: usize = 8;
const MAX_DRIFT: f64 = 0.002;
const DLL_LOOP_HZ: f64 = 0.01;
const FILL_SMOOTH: f64 = 0.01;

fn pkt(seq: u32, channels: u8, val: f32) -> AudioPacket {
    AudioPacket {
        seq,
        sample_rate: 48_000,
        channels,
        frames: FPP,
        samples: vec![val.to_bits(); FPP as usize * channels as usize],
    }
}

fn kernel(taps: Taps, phase: u64) -> u32 {
    let (a, b, c, d) = taps;
    let (a, b, c, d) =
        (f32::from_bits(a), f32::from_bits(b), f32::from_bits(c), f32::from_bits(d));
    let t = f64::from_bits(phase) as f32;
    let c1 = 0.5 * (c - a);
    let c2 = a - 2.5 * b + 2.0 * c - 0.5 * d;
    let c3 = 0.5 * (d - a) + 1.5 * (b - c);
    (((c3 * t + c2) * t + c1) * t + b).to_bits()
}

fn advance(phase: u64, ratio: u64) -> (u64, usize) {
    let mut p = f64::from_bits(phase) + f64::from_bits(ratio);
    let mut n = 0;
    while p >= 1.0 {
        p -= 1.0;
        n += 1;
    }
    (p.to_bits(), n)
}

struct Rig {
    r: Resampler,
    b: f64,
    c: f64,
}

impl Rig {
    fn new() -> Rig {
        let fpp = FPP as f64;
        let omega = 2.0 * std::f64::consts::PI * DLL_LOOP_HZ / (48_000.0 / fpp);
        Rig {
            r: Resampler::new(PRIME, FPP),
            b: std::f64::consts::SQRT_2 * omega / fpp,
            c: omega * omega / fpp,
        }
    }

    fn produce_block(&mut self) -> Option<(Vec<f32>, u8)> {
        let (b, c) = (self.b, self.c);
        let steer = move |d: Dll, frames: u128, phase: u64, set_point: usize| {
            let buffered = frames as f64 - f64::from_bits(phase);
            let err = buffered - set_point as f64;
            let mut filt = f64::from_bits(d.err_filt);
            filt += FILL_SMOOTH * (err - filt);
            let integ = f64::from_bits(d.integ);
            let new_integ = integ + c * filt;
            let candidate = 1.0 + b * filt + new_integ;
            if candidate <= 1.0 - MAX_DRIFT || candidate >= 1.0 + MAX_DRIFT {
                let ratio = candidate.clamp(1.0 - MAX_DRIFT, 1.0 + MAX_DRIFT);
                Dll { ratio: ratio.to_bits(), integ: d.integ, err_filt: filt.to_bits() }
            } else {
                Dll {
                    ratio: candidate.to_bits(),
                    integ: new_integ.to_bits(),
                    err_filt: filt.to_bits(),
                }
            }
        };
        match self.r.produce_block(&kernel, &advance, &steer) {
            Produced::Block(block, ch) => {
                Some((block.into_iter().map(f32::from_bits).collect(), ch))
            }
            Produced::Dry => None,
            Produced::Broken => panic!("malformed input"),
        }
    }

    fn ratio(&self) -> f64 {
        f64::from_bits(self.r.ratio())
    }
}

/// Drive a resampler from a sender running `ppm` off the local rate: per
/// output block the sender produces `(1+ppm)·frames_per_block` input frames.
/// Returns the per-block buffered-packet count over the converged part of the
/// run, and the mean ratio over it.
fn run_drift(ppm: f64, seconds: usize, channels: u8, val: f32) -> (Vec<usize>, f64) {
    let mut rig = Rig::new();
    let true_ratio = 1.0 + ppm * 1e-6;
    let blocks = seconds * 750; // ~750 blocks/s at 48k / 64
    let mut sender_frames = 0.0f64;
    let mut seq = 0u32;
    let mut tail_fill = Vec::new();
    let mut ratio_sum = 0.0f64;
    let mut ratio_n = 0u64;
    for k in 0..blocks {
        sender_frames += true_ratio * FPP as f64;
        while sender_frames >= FPP as f64 {
            rig.r.insert(pkt(seq, channels, val));
            seq = seq.wrapping_add(1);
            sender_frames -= FPP as f64;
        }
        let _ = rig.produce_block();
        if k >= blocks * 3 / 4 {
            tail_fill.push(rig.r.buffered_packets());
            ratio_sum += rig.ratio();
            ratio_n += 1;
        }
    }
    (tail_fill, ratio_sum / ratio_n as f64)
}

#[test]
fn dll_converges_and_holds_fill() {
    for &ppm in &[100.0_f64, -100.0, 1500.0] {
        let (tail, mean_ratio) = run_drift(ppm, 180, 1, 0.25);
        let true_ratio = 1.0 + ppm * 1e-6;
        assert!(
            (mean_ratio - true_ratio).abs() < 15e-6,
            "ppm {ppm}: mean ratio {mean_ratio} should lock to {true_ratio}"
        );
        let (lo, hi) = (*tail.iter().min().unwrap(), *tail.iter().max().unwrap());
        assert!(hi - lo <= 4, "ppm {ppm}: fill drifted instead of holding: {lo}..{hi}");
    }
}

#[test]
fn dll_saturates_without_blowing_up() {
    // Drift past the ±MAX_DRIFT clamp: the ratio pins near the limit (it
    // can't keep up), stays finite, and never runs away.
    let (_, mean_ratio) = run_drift(5000.0, 20, 1, 0.1);
    assert!(
        mean_ratio.is_finite() && mean_ratio >= 1.0 + 0.0015 && mean_ratio <= 1.0 + MAX_DRIFT + 1e-9,
        "ratio {mean_ratio} should pin near the +{MAX_DRIFT} clamp"
    );
}

#[test]
fn preserves_dc_through_resampling() {
    // A DC level (a held CV) must survive resampling under drift untouched.
    let mut rig = Rig::new();
    let true_ratio = 1.0 + 100.0 * 1e-6;
    let mut sender_frames = 0.0f64;
    let mut seq = 0u32;
    let mut checked = 0;
    for _ in 0..(10 * 750) {
        sender_frames += true_ratio * FPP as f64;
        while sender_frames >= FPP as f64 {
            rig.r.insert(pkt(seq, 2, -0.3));
            seq += 1;
            sender_frames -= FPP as f64;
        }
        if let Some((block, ch)) = rig.produce_block() {
            assert_eq!(ch, 2);
            for &s in &block {
                assert!((s - -0.3).abs() < 1e-4, "DC not preserved: {s}");
                checked += 1;
            }
        }
    }
    assert!(checked > 100_000, "expected sustained output, got {checked} samples");
}

#[test]
fn recovers_after_resync() {
    let mut rig = Rig::new();
    for s in 0..PRIME as u32 {
        rig.r.insert(pkt(s, 1, 0.1));
    }
    assert!(rig.produce_block().is_some(), "should play once primed");
    // A far-ahead packet forces the jitter buffer to resync (re-prime).
    rig.r.insert(pkt(10_000, 1, 0.2));
    for s in 10_001..(10_000 + PRIME as u32) {
        rig.r.insert(pkt(s, 1, 0.2));
    }
    // After re-priming it produces again, at full gain (ratio reset to 1.0).
    let mut played = false;
    for _ in 0..PRIME {
        if rig.produce_block().is_some() {
            played = true;
        }
    }
    assert!(played, "should resume playout after resync");
}

#[test]
fn underruns_to_none() {
    let mut rig = Rig::new();
    for s in 0..PRIME as u32 {
        rig.r.insert(pkt(s, 1, 0.1));
    }
    // Drain without feeding: eventually the buffer runs dry.
    let mut saw_none = false;
    for _ in 0..1000 {
        if rig.produce_block().is_none() {
            saw_none = true;
            break;
        }
    }
    assert!(saw_none, "starved resampler must eventually return None");
}

#[test]
fn nothing_is_produced_before_the_cushion_is_complete() {
    let mut rig = Rig::new();
    for s in 0..(PRIME as u32 - 1) {
        rig.r.insert(pkt(s, 1, 0.1));
        assert!(rig.produce_block().is_none());
    }
    rig.r.insert(pkt(PRIME as u32 - 1, 1, 0.1));
    assert!(rig.produce_block().is_some());
}

#[test]
fn window_starts_with_its_first_frame_doubled() {
    // At a ratio of one the kernel's second tap is the input itself.
    let mut r = Resampler::new(1, 4);
    assert_eq!(r.ratio(), UNITY);
    r.insert(AudioPacket {
        seq: 0,
        sample_rate: 48_000,
        channels: 1,
        frames: 8,
        samples: vec![1, 2, 3, 4, 5, 6, 7, 8],
    });
    let second = |t: Taps, _: u64| t.1;
    let first = |t: Taps, _: u64| t.0;
    let one = |p: u64, _: u64| (p, 1usize);
    let keep = |d: Dll, _: u128, _: u64, _: usize| d;
    match r.produce_block(&second, &one, &keep) {
        Produced::Block(block, ch) => assert_eq!((block, ch), (vec![1, 2, 3, 4], 1)),
        _ => panic!("a block was due"),
    }
    match r.produce_block(&first, &one, &keep) {
        // The input ends four frames after the one that is read last.
        Produced::Dry => {}
        _ => panic!("the input has run out"),
    }
}

#[test]
fn fill_is_measured_in_packets_and_window_frames() {
    let mut r = Resampler::new(2, 4);
    for seq in 0..3 {
        r.insert(AudioPacket {
            seq,
            sample_rate: 48_000,
            channels: 1,
            frames: 4,
            samples: vec![seq; 4],
        });
    }
    let first = |t: Taps, _: u64| t.0;
    let one = |p: u64, _: u64| (p, 1usize);
    let seen = |_: Dll, frames: u128, phase: u64, set_point: usize| Dll {
        ratio: frames as u64,
        integ: phase,
        err_filt: set_point as u64,
    };
    match r.produce_block(&first, &one, &seen) {
        Produced::Block(block, _) => assert_eq!(block, vec![0, 0, 0, 0]),
        _ => panic!("a block was due"),
    }
    // Two packets of four frames wait, and the window held five.
    assert_eq!(r.ratio(), 13);
}

#[test]
fn input_that_cannot_be_read_is_reported() {
    let first = |t: Taps, _: u64| t.0;
    let one = |p: u64, _: u64| (p, 1usize);
    let far = |p: u64, _: u64| (p, 100usize);
    let keep = |d: Dll, _: u128, _: u64, _: usize| d;
    let packet = |channels: u8, samples: Vec<u32>| AudioPacket {
        seq: 0,
        sample_rate: 48_000,
        channels,
        frames: 4,
        samples,
    };
    let mut none = Resampler::new(1, 4);
    none.insert(packet(0, vec![]));
    assert!(matches!(none.produce_block(&first, &one, &keep), Produced::Broken));
    let mut short = Resampler::new(1, 4);
    short.insert(packet(3, vec![1, 2]));
    assert!(matches!(short.produce_block(&first, &one, &keep), Produced::Broken));
    let mut jump = Resampler::new(1, 4);
    jump.insert(packet(1, vec![1, 2, 3, 4]));
    assert!(matches!(jump.produce_block(&first, &far, &keep), Produced::Broken));
}

#[test]
fn width_change_begins_the_block_again() {
    let second = |t: Taps, _: u64| t.1;
    let one = |p: u64, _: u64| (p, 1usize);
    let keep = |d: Dll, _: u128, _: u64, _: usize| d;
    let packet = |seq: u32, channels: u8, samples: Vec<u32>| AudioPacket {
        seq,
        sample_rate: 48_000,
        channels,
        frames: 4,
        samples,
    };
    let mut r = Resampler::new(1, 4);
    r.insert(packet(0, 1, vec![1, 2, 3, 4]));
    r.insert(packet(1, 2, vec![10, 20, 11, 21, 12, 22, 13, 23]));
    r.insert(packet(2, 2, vec![14, 24, 15, 25, 16, 26, 17, 27]));
    // Two frames of the first packet are played before the second is needed: they
    // are given up.
    match r.produce_block(&second, &one, &keep) {
        Produced::Block(block, ch) => {
            assert_eq!((block, ch), (vec![10, 20, 11, 21, 12, 22, 13, 23], 2));
        }
        _ => panic!("a block was due"),
    }
    // Then to one channel again, where the input runs out.
    r.insert(packet(3, 1, vec![5, 6, 7, 8]));
    assert!(matches!(r.produce_block(&second, &one, &keep), Produced::Dry));
    r.insert(packet(4, 1, vec![9, 10, 11, 12]));
    match r.produce_block(&second, &one, &keep) {
        Produced::Block(block, ch) => assert_eq!((block.len(), ch), (4, 1)),
        _ => panic!("a block was due"),
    }
}

#[test]
fn constant_level_comes_out_as_the_kernel_gives_it_back() {
    // Whatever the ratio and the width, each sample is made of four equal ones.
    let bump = |t: Taps, _: u64| {
        assert_eq!((t.0, t.1, t.2), (t.1, t.2, t.3));
        t.0 + 1
    };
    let two_then_none = |p: u64, _: u64| if p == 0 { (1, 2usize) } else { (0, 0usize) };
    let keep = |d: Dll, _: u128, _: u64, _: usize| d;
    let mut r = Resampler::new(1, 4);
    for seq in 0..6 {
        let channels = if seq < 3 { 1 } else { 2 };
        r.insert(AudioPacket {
            seq,
            sample_rate: 48_000,
            channels,
            frames: 4,
            samples: vec![7; 4 * channels as usize],
        });
    }
    let mut widths = Vec::new();
    while let Produced::Block(block, ch) = r.produce_block(&bump, &two_then_none, &keep) {
        assert_eq!(block, vec![8; 4 * ch as usize]);
        widths.push(ch);
    }
    assert_eq!(widths, vec![1, 1, 2, 2]);
}

#[test]
fn starved_resampler_runs_dry() {
    // Nine samples come into the window, and a block passes four of them.
    let second = |t: Taps, _: u64| t.1;
    let one = |p: u64, _: u64| (p, 1usize);
    let keep = |d: Dll, _: u128, _: u64, _: usize| d;
    let mut r = Resampler::new(1, 4);
    for seq in 0..2 {
        r.insert(AudioPacket {
            seq,
            sample_rate: 48_000,
            channels: 1,
            frames: 4,
            samples: vec![seq; 4],
        });
    }
    assert!(matches!(r.produce_block(&second, &one, &keep), Produced::Block(_, 1)));
    assert!(matches!(r.produce_block(&second, &one, &keep), Produced::Dry));
    assert!(matches!(r.produce_block(&second, &one, &keep), Produced::Dry));
}

#[test]
fn resync_resets_the_ratio() {
    let packet = |seq: u32, val: u32| AudioPacket {
        seq,
        sample_rate: 48_000,
        channels: 1,
        frames: 4,
        samples: vec![val; 4],
    };
    let second = |t: Taps, _: u64| t.1;
    let one = |p: u64, _: u64| (p, 1usize);
    let bend = |d: Dll, _: u128, _: u64, _: usize| Dll { ratio: 5, ..d };
    let mut r = Resampler::new(2, 4);
    for seq in 0..4 {
        r.insert(packet(seq, 1));
    }
    assert!(matches!(r.produce_block(&second, &one, &bend), Produced::Block(_, 1)));
    assert_eq!(r.ratio(), 5);
    // The stream jumps and primes again before the next block.
    for seq in 9000..9004 {
        r.insert(packet(seq, 2));
    }
    let keep = |d: Dll, _: u128, _: u64, _: usize| d;
    match r.produce_block(&second, &one, &keep) {
        Produced::Block(block, _) => assert_eq!(block, vec![2; 4]),
        _ => panic!("a block was due"),
    }
    assert_eq!(r.ratio(), UNITY);
}
