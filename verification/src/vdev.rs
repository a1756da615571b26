//! What a virtual audio device does with its buffers, and how it presents
//! itself.
//!
//! A virtual device presents a *remote* group member's exposed signals as a
//! real, selectable audio device on the local machine. A **source** is a node
//! other apps record from: gorgon feeds it from the network. A **sink** is a
//! node other apps play into: gorgon drains it to the network.
//!
//! Channels are positioned `AUX0..AUXn` (not FL/FR), which keeps DC-coupled CV
//! clear of any stereo/surround down-mix heuristics.

use vstd::prelude::*;
use crate::ring::{outflow, playback, ready, taken, SampleConsumer};

verus! {

/// Bytes of a sample.
pub const SAMPLE_BYTES: usize = 4;

/// Channel positions that a device format has places for.
pub const POSITIONS: usize = 64;

/// The whole samples in the valid part of a buffer of `len` bytes, counted in
/// bytes.
pub fn usable_bytes(valid: usize, len: usize) -> (n: usize)
    ensures
        n % 4 == 0,
        n <= valid,
        n <= len,
        n + 4 > valid || n + 4 > len,
{
    let end: usize = if valid < len {
        valid
    } else {
        len
    };
    end - end % SAMPLE_BYTES
}

/// The bytes from one frame to the next.
pub fn frame_stride(channels: usize) -> (n: usize)
    requires
        channels * 4 <= usize::MAX,
    ensures
        n == channels * 4,
{
    channels * SAMPLE_BYTES
}

/// Fills a source's buffer for the apps that record from it: as many whole
/// frames of `channels` channels as it holds, with samples from the ring and
/// silence where the ring runs dry. What is left behind the last whole frame is
/// not touched. Returns the filled length in bytes.
pub fn feed_source(cons: &mut SampleConsumer, buffer: &mut [u32], channels: usize) -> (size: usize)
    requires
        channels > 0,
        old(buffer)@.len() * 4 <= usize::MAX,
    ensures
        ({
            let want = (old(buffer)@.len() as int / channels as int) * channels;
            &&& size == want * 4
            &&& final(buffer)@.len() == old(buffer)@.len()
            &&& forall|i: int|
                want <= i < old(buffer)@.len() ==> final(buffer)@[i] == old(buffer)@[i]
            &&& outflow(*final(cons)) == outflow(*old(cons))
            &&& taken(*final(cons)).is_prefix_of(outflow(*final(cons)))
            &&& exists|popped: int|
                {
                    &&& 0 <= popped <= want
                    &&& popped == want || ready(*old(cons)) <= popped
                    &&& ready(*old(cons)) <= ready(*final(cons)) + popped
                    &&& taken(*final(cons)) == taken(*old(cons))
                        + #[trigger] final(buffer)@.take(popped)
                    &&& forall|i: int| popped <= i < want ==> final(buffer)@[i] == 0
                }
        }),
{
    let len: usize = buffer.len();
    let frames: usize = len / channels;
    proof {
        vstd::arithmetic::div_mod::lemma_fundamental_div_mod(len as int, channels as int);
        assert(frames * channels == channels * frames) by (nonlinear_arith);
        assert(0 <= frames * channels) by (nonlinear_arith)
            requires
                0 <= frames,
                0 <= channels,
        ;
    }
    let want: usize = frames * channels;
    let ghost before = buffer@;
    let (head, _tail) = buffer.split_at_mut(want);
    let popped: usize = playback(cons, head);
    proof {
        assert(buffer@.take(popped as int) =~= head@.take(popped as int));
    }
    want * SAMPLE_BYTES
}

/// A property of an audio node.
pub open spec fn property(p: (String, String), key: Seq<char>, value: Seq<char>) -> bool {
    p.0@ == key && p.1@ == value
}

/// Node properties: identity plus the settings that keep DC-coupled CV
/// bit-exact (forced 48 kHz f32, no channel mixing, no monitor volume).
pub fn node_properties(name: &str, media_class: &str) -> (p: Vec<(String, String)>)
    ensures
        p@.len() == 10,
        property(p@[0], "media.type"@, "Audio"@),
        property(p@[1], "media.class"@, media_class@),
        property(p@[2], "node.name"@, name@),
        property(p@[3], "node.description"@, name@),
        property(p@[4], "node.virtual"@, "true"@),
        property(p@[5], "audio.rate"@, "48000"@),
        property(p@[6], "audio.format"@, "F32"@),
        property(p@[7], "node.force-rate"@, "48000"@),
        property(p@[8], "channelmix.disable"@, "true"@),
        property(p@[9], "monitor.channel-volumes"@, "false"@),
{
    let mut p: Vec<(String, String)> = Vec::new();
    p.push(("media.type".to_owned(), "Audio".to_owned()));
    p.push(("media.class".to_owned(), media_class.to_owned()));
    p.push(("node.name".to_owned(), name.to_owned()));
    p.push(("node.description".to_owned(), name.to_owned()));
    p.push(("node.virtual".to_owned(), "true".to_owned()));
    p.push(("audio.rate".to_owned(), "48000".to_owned()));
    p.push(("audio.format".to_owned(), "F32".to_owned()));
    p.push(("node.force-rate".to_owned(), "48000".to_owned()));
    p.push(("channelmix.disable".to_owned(), "true".to_owned()));
    p.push(("monitor.channel-volumes".to_owned(), "false".to_owned()));
    p
}

/// The positions of a device's channels: AUX0 and up for as many as it has, and
/// `unknown` in the places that are left. `aux0` is the number of the first
/// auxiliary position.
pub fn channel_positions(channels: u32, aux0: u32, unknown: u32) -> (pos: Vec<u32>)
    requires
        aux0 + POSITIONS <= u32::MAX,
    ensures
        pos@ == Seq::new(
            POSITIONS as nat,
            |i: int|
                if i < channels {
                    (aux0 + i) as u32
                } else {
                    unknown
                },
        ),
{
    let mut pos: Vec<u32> = Vec::new();
    let mut i: u32 = 0;
    while i < POSITIONS as u32
        invariant
            i <= POSITIONS,
            aux0 + POSITIONS <= u32::MAX,
            pos@ =~= Seq::new(
                i as nat,
                |k: int|
                    if k < channels {
                        (aux0 + k) as u32
                    } else {
                        unknown
                    },
            ),
        decreases POSITIONS - i,
    {
        pos.push(
            if i < channels {
                aux0 + i
            } else {
                unknown
            },
        );
        i = i + 1;
    }
    pos
}

} // verus!
