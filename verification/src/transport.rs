//! Audio-transport helpers shared by the point-to-point `stream` command and
//! the group `remote` command: turning a captured block into a wire packet,
//! mixing a drained packet into an interleaved output buffer, and the depth of
//! the playout cushion.

use vstd::prelude::*;
use crate::config::Addr;
use crate::jitter::{Ingest, JitterBuffer};
use crate::layout::{cell, cell_position, next_frame};
use crate::packet::{AudioPacket, PacketView};

verus! {

/// The samples of the chosen channels, frame by frame: packet channel `i` of
/// frame `f` is channel `channels[i]` of frame `f` of `block`.
pub open spec fn picked(block: Seq<u32>, in_channels: int, channels: Seq<u16>, frames: nat) -> Seq<
    u32,
> {
    Seq::new(
        frames * channels.len(),
        |k: int|
            block[(k / channels.len() as int) * in_channels + channels[k % channels.len() as int]],
    )
}

/// Every sample that [`picked`] takes stands in the block.
pub open spec fn picks_inside(
    block: Seq<u32>,
    in_channels: int,
    channels: Seq<u16>,
    frames: int,
) -> bool {
    forall|f: int, i: int|
        0 <= f < frames && 0 <= i < channels.len() ==> #[trigger] cell(
            f,
            channels[i] as int,
            in_channels,
        ) < block.len()
}

/// Re-interleaves a captured block into a packet carrying only `channels` (the
/// chosen local input indices), in order: `channels[0]` becomes packet channel
/// 0, and so on. `block` is `frames * in_channels` interleaved samples. The
/// header's channel count is one byte, so it holds the number of channels
/// modulo 256.
pub fn packetize(
    block: &[u32],
    in_channels: usize,
    channels: &[u16],
    frames: u8,
    seq: u32,
    sample_rate: u16,
) -> (p: AudioPacket)
    requires
        picks_inside(block@, in_channels as int, channels@, frames as int),
    ensures
        p.seq == seq,
        p.sample_rate == sample_rate,
        p.frames == frames,
        p.channels == channels.len() % 256,
        p.samples@ == picked(block@, in_channels as int, channels@, frames as nat),
{
    let mut samples: Vec<u32> = Vec::new();
    let mut f: u8 = 0;
    let ghost n = channels@.len() as int;
    let ghost all = picked(block@, in_channels as int, channels@, frames as nat);
    proof {
        next_frame(0, n);
    }
    while f < frames
        invariant
            f <= frames,
            n == channels@.len(),
            all == picked(block@, in_channels as int, channels@, frames as nat),
            samples@.len() == f * n,
            f * n <= frames * n,
            samples@ =~= all.take(f * n),
            picks_inside(block@, in_channels as int, channels@, frames as int),
        decreases frames - f,
    {
        let mut i: usize = 0;
        proof {
            next_frame(f as int, n);
            assert(f * n + n <= frames * n) by (nonlinear_arith)
                requires
                    f + 1 <= frames,
                    0 <= n,
            ;
        }
        while i < channels.len()
            invariant
                i <= channels.len(),
                f < frames,
                n == channels@.len(),
                all == picked(block@, in_channels as int, channels@, frames as nat),
                samples@.len() == f * n + i,
                f * n + n <= frames * n,
                samples@ =~= all.take(f * n + i),
                picks_inside(block@, in_channels as int, channels@, frames as int),
            decreases channels.len() - i,
        {
            proof {
                cell_position(f as int, i as int, n, frames as int);
                assert(cell(f as int, channels@[i as int] as int, in_channels as int) < block.len());
                assert(0 <= f * in_channels) by (nonlinear_arith)
                    requires
                        0 <= f,
                        0 <= in_channels,
                ;
            }
            let base: usize = f as usize * in_channels;
            samples.push(block[base + channels[i] as usize]);
            i = i + 1;
        }
        f = f + 1;
    }
    assert(samples@ =~= all);
    AudioPacket { seq, sample_rate, channels: (channels.len() % 256) as u8, frames, samples }
}

/// Something to be sent.
pub struct Datagram {
    pub dest: Addr,
    pub bytes: Vec<u8>,
}

/// The datagram carries `packet` to `dest`.
pub open spec fn carries(d: Datagram, dest: Addr, packet: PacketView) -> bool {
    d.dest == dest && d.bytes@ == packet.wire()
}

/// A sample rate as a packet's header holds it: its low 16 bits.
pub open spec fn header_rate(sample_rate: u32) -> u16 {
    (sample_rate % 0x1_0000) as u16
}

/// A sample rate as a packet's header holds it.
pub fn rate_for_header(sample_rate: u32) -> (r: u16)
    ensures
        r == header_rate(sample_rate),
{
    (sample_rate % 0x1_0000) as u16
}

/// The packet that carries the chosen channels of a captured block.
pub open spec fn captured_packet(
    block: Seq<u32>,
    in_channels: u16,
    channels: Seq<u16>,
    frames: u8,
    seq: u32,
    sample_rate: u32,
) -> PacketView {
    PacketView {
        seq,
        sample_rate: header_rate(sample_rate),
        channels: (channels.len() % 256) as u8,
        frames,
        samples: picked(block, in_channels as int, channels, frames as nat),
    }
}

/// All channels are below `limit`.
pub open spec fn all_below(channels: Seq<u16>, limit: u16) -> bool {
    forall|i: int| 0 <= i < channels.len() ==> (#[trigger] channels[i]) < limit
}

/// A block of whole frames holds every channel that the device has.
pub proof fn block_holds_channels(block: Seq<u32>, in_channels: u16, channels: Seq<u16>, frames: u8)
    requires
        block.len() == frames * in_channels,
        all_below(channels, in_channels),
    ensures
        picks_inside(block, in_channels as int, channels, frames as int),
{
    assert forall|f: int, i: int|
        0 <= f < frames && 0 <= i < channels.len() implies #[trigger] cell(
        f,
        channels[i] as int,
        in_channels as int,
    ) < block.len() by {
        cell_position(f, channels[i] as int, in_channels as int, frames as int);
    }
}

/// What is added to position `j` of an output block, in the order of the route:
/// the sample of packet channel `p` in the same frame, for each pair `(p, o)`
/// whose output channel is that of `j`. Pairs that name a channel which the
/// packet or the output does not have add nothing.
pub open spec fn addends<T>(
    samples: Seq<T>,
    src_channels: int,
    out_channels: int,
    pairs: Seq<(u16, u16)>,
    frames: int,
    j: int,
) -> Seq<T>
    decreases pairs.len(),
{
    if pairs.len() == 0 {
        Seq::empty()
    } else {
        let rest = addends(samples, src_channels, out_channels, pairs.drop_last(), frames, j);
        let (p, o) = pairs.last();
        if p < src_channels && o < out_channels && j / out_channels < frames && j % out_channels
            == o {
            rest.push(samples[cell(j / out_channels, p as int, src_channels)])
        } else {
            rest
        }
    }
}

/// `steps` are the sums on the way when `terms` are added to the first of them,
/// one after the other.
pub open spec fn running_sums<T, F: Fn(T, T) -> T>(plus: F, terms: Seq<T>, steps: Seq<T>) -> bool {
    &&& steps.len() == terms.len() + 1
    &&& forall|i: int|
        0 <= i < terms.len() ==> call_ensures(plus, (#[trigger] steps[i], terms[i]), steps[i + 1])
}

/// `end` is what comes out when `terms` are added to `start`, one after the
/// other.
pub open spec fn sums_to<T, F: Fn(T, T) -> T>(plus: F, start: T, terms: Seq<T>, end: T) -> bool {
    exists|steps: Seq<T>| #[trigger]
        running_sums(plus, terms, steps) && steps[0] == start && steps.last() == end
}

/// Where nothing is added, the sum is what was there.
pub proof fn sums_to_nothing<T, F: Fn(T, T) -> T>(plus: F, start: T)
    ensures
        sums_to(plus, start, Seq::empty(), start),
{
    assert(running_sums(plus, Seq::empty(), seq![start]));
}

/// A block of whole frames has a place for everything that a route writes.
pub proof fn block_takes_routes(
    block_len: int,
    src_channels: int,
    out_channels: int,
    pairs: Seq<(u16, u16)>,
    frames: int,
)
    requires
        block_len == frames * out_channels,
    ensures
        output_covers(block_len, src_channels, out_channels, pairs, frames),
{
    assert forall|f: int, i: int|
        0 <= f < frames && 0 <= i < pairs.len() && routes(
            pairs[i],
            src_channels,
            out_channels,
        ) implies #[trigger] cell(f, pairs[i].1 as int, out_channels) < block_len by {
        cell_position(f, pairs[i].1 as int, out_channels, frames);
    }
}

proof fn sums_to_step<T, F: Fn(T, T) -> T>(plus: F, start: T, terms: Seq<T>, mid: T, end: T)
    requires
        terms.len() > 0,
        sums_to(plus, start, terms.drop_last(), mid),
        call_ensures(plus, (mid, terms.last()), end),
    ensures
        sums_to(plus, start, terms, end),
{
    let steps = choose|steps: Seq<T>| #[trigger]
        running_sums(plus, terms.drop_last(), steps) && steps[0] == start && steps.last() == mid;
    let longer = steps.push(end);
    assert forall|i: int| 0 <= i < terms.len() implies call_ensures(
        plus,
        (#[trigger] longer[i], terms[i]),
        longer[i + 1],
    ) by {
        if i < terms.len() - 1 {
            assert(longer[i] == steps[i] && longer[i + 1] == steps[i + 1]);
            assert(terms[i] == terms.drop_last()[i]);
        }
    }
    assert(running_sums(plus, terms, longer));
}

/// A pair routes a channel that both sides have.
pub open spec fn routes(pair: (u16, u16), src_channels: int, out_channels: int) -> bool {
    pair.0 < src_channels && pair.1 < out_channels
}

/// Every sample that the route reads stands in a packet of `sample_count`
/// samples.
pub open spec fn packet_covers(
    sample_count: int,
    src_channels: int,
    out_channels: int,
    pairs: Seq<(u16, u16)>,
    frames: int,
) -> bool {
    forall|f: int, i: int|
        0 <= f < frames && 0 <= i < pairs.len() && routes(pairs[i], src_channels, out_channels)
            ==> #[trigger] cell(f, pairs[i].0 as int, src_channels) < sample_count
}

/// Every position that the route writes stands in a block of `block_len`
/// samples.
pub open spec fn output_covers(
    block_len: int,
    src_channels: int,
    out_channels: int,
    pairs: Seq<(u16, u16)>,
    frames: int,
) -> bool {
    forall|f: int, i: int|
        0 <= f < frames && 0 <= i < pairs.len() && routes(pairs[i], src_channels, out_channels)
            ==> #[trigger] cell(f, pairs[i].1 as int, out_channels) < block_len
}

/// Whether every sample that the route reads stands in a packet of
/// `sample_count` samples.
pub fn covers(
    sample_count: usize,
    src_channels: u8,
    out_channels: usize,
    pairs: &[(u16, u16)],
    frames: u8,
) -> (r: bool)
    ensures
        r == packet_covers(
            sample_count as int,
            src_channels as int,
            out_channels as int,
            pairs@,
            frames as int,
        ),
{
    if frames == 0 {
        return true;
    }
    let ghost sc = src_channels as int;
    let ghost oc = out_channels as int;
    assert(0 <= (frames - 1) * sc <= 254 * 255) by (nonlinear_arith)
        requires
            1 <= frames <= 255,
            0 <= sc <= 255,
    ;
    let last: usize = (frames - 1) as usize * src_channels as usize;
    let mut i: usize = 0;
    while i < pairs.len()
        invariant
            i <= pairs@.len(),
            frames > 0,
            sc == src_channels,
            oc == out_channels,
            last == (frames - 1) * sc,
            last <= 254 * 255,
            forall|f: int, k: int|
                0 <= f < frames && 0 <= k < i && routes(pairs@[k], sc, oc) ==> #[trigger] cell(
                    f,
                    pairs@[k].0 as int,
                    sc,
                ) < sample_count,
        decreases pairs.len() - i,
    {
        let (p, o) = pairs[i];
        if (p as usize) < src_channels as usize && (o as usize) < out_channels {
            if last + p as usize >= sample_count {
                assert(cell(frames - 1, pairs@[i as int].0 as int, sc) >= sample_count);
                return false;
            }
            assert forall|f: int, k: int|
                0 <= f < frames && 0 <= k < i + 1 && routes(pairs@[k], sc, oc) implies #[trigger] cell(
                f,
                pairs@[k].0 as int,
                sc,
            ) < sample_count by {
                if k == i {
                    assert(f * sc <= (frames - 1) * sc) by (nonlinear_arith)
                        requires
                            f <= frames - 1,
                            0 <= sc,
                    ;
                }
            }
        }
        i = i + 1;
    }
    true
}

/// `after` is `before` with the routed channels of a packet added in.
pub open spec fn mixed<T, F: Fn(T, T) -> T>(
    plus: F,
    before: Seq<T>,
    samples: Seq<T>,
    src_channels: int,
    out_channels: int,
    pairs: Seq<(u16, u16)>,
    frames: int,
    after: Seq<T>,
) -> bool {
    &&& after.len() == before.len()
    &&& forall|j: int|
        0 <= j < before.len() ==> sums_to(
            plus,
            before[j],
            addends(samples, src_channels, out_channels, pairs, frames, j),
            #[trigger] after[j],
        )
}

/// Adds one drained packet's routed channels into an interleaved output block.
/// `recv_pairs` maps `(packet_channel, local_output_channel)`; several pairs may
/// target the same output, in which case they sum (so multiple peers mix onto
/// one physical output). Out-of-range channels are skipped. `plus` is the
/// addition of two samples.
pub fn sum_into_output<T: Copy, F: Fn(T, T) -> T>(
    out_block: &mut [T],
    samples: &[T],
    src_channels: usize,
    out_channels: usize,
    recv_pairs: &[(u16, u16)],
    frames: usize,
    plus: &F,
)
    requires
        packet_covers(
            samples@.len() as int,
            src_channels as int,
            out_channels as int,
            recv_pairs@,
            frames as int,
        ),
        output_covers(
            old(out_block)@.len() as int,
            src_channels as int,
            out_channels as int,
            recv_pairs@,
            frames as int,
        ),
        forall|a: T, b: T| #[trigger] call_requires(*plus, (a, b)),
    ensures
        mixed(
            *plus,
            old(out_block)@,
            samples@,
            src_channels as int,
            out_channels as int,
            recv_pairs@,
            frames as int,
            final(out_block)@,
        ),
{
    let out_len: usize = out_block.len();
    let sample_count: usize = samples.len();
    let ghost before = out_block@;
    let ghost pairs = recv_pairs@;
    let ghost sc = src_channels as int;
    let ghost oc_all = out_channels as int;
    let mut i: usize = 0;
    proof {
        assert(pairs.take(0) =~= Seq::empty());
        assert forall|j: int| 0 <= j < before.len() implies sums_to(
            *plus,
            before[j],
            addends(samples@, sc, oc_all, pairs.take(0), frames as int, j),
            #[trigger] out_block@[j],
        ) by {
            sums_to_nothing(*plus, before[j]);
        }
    }
    while i < recv_pairs.len()
        invariant
            i <= recv_pairs.len(),
            pairs == recv_pairs@,
            sc == src_channels,
            oc_all == out_channels,
            before.len() == out_block@.len(),
            before.len() == out_len,
            samples@.len() == sample_count,
            packet_covers(samples@.len() as int, sc, oc_all, pairs, frames as int),
            output_covers(before.len() as int, sc, oc_all, pairs, frames as int),
            forall|a: T, b: T| #[trigger] call_requires(*plus, (a, b)),
            forall|j: int|
                0 <= j < before.len() ==> sums_to(
                    *plus,
                    before[j],
                    addends(samples@, sc, oc_all, pairs.take(i as int), frames as int, j),
                    #[trigger] out_block@[j],
                ),
        decreases recv_pairs.len() - i,
    {
        let (pc, oc) = recv_pairs[i];
        let pc: usize = pc as usize;
        let oc: usize = oc as usize;
        let ghost now = pairs.take(i as int);
        let ghost next = pairs.take(i + 1);
        proof {
            assert(next.drop_last() =~= now);
            assert(next.last() == pairs[i as int]);
        }
        if pc < src_channels && oc < out_channels {
            let mut f: usize = 0;
            let ghost start = out_block@;
            while f < frames
                invariant
                    f <= frames,
                    i < recv_pairs.len(),
                    pairs == recv_pairs@,
                    pairs[i as int] == (pc as u16, oc as u16),
                    pc <= u16::MAX,
                    oc <= u16::MAX,
                    pc < src_channels,
                    oc < out_channels,
                    sc == src_channels,
                    oc_all == out_channels,
                    before.len() == out_block@.len(),
                    before.len() == out_len,
                    samples@.len() == sample_count,
                    start.len() == before.len(),
                    now == pairs.take(i as int),
                    next.drop_last() == now,
                    next.last() == pairs[i as int],
                    next.len() == i + 1,
                    packet_covers(samples@.len() as int, sc, oc_all, pairs, frames as int),
                    output_covers(before.len() as int, sc, oc_all, pairs, frames as int),
                    forall|a: T, b: T| #[trigger] call_requires(*plus, (a, b)),
                    forall|j: int|
                        0 <= j < before.len() ==> sums_to(
                            *plus,
                            before[j],
                            addends(samples@, sc, oc_all, now, frames as int, j),
                            #[trigger] start[j],
                        ),
                    forall|j: int|
                        0 <= j < before.len() ==> if j / oc_all < f && j % oc_all == oc {
                            sums_to(
                                *plus,
                                before[j],
                                addends(samples@, sc, oc_all, next, frames as int, j),
                                #[trigger] out_block@[j],
                            )
                        } else {
                            out_block@[j] == start[j]
                        },
                decreases frames - f,
            {
                let ghost here = cell(f as int, oc as int, oc_all);
                proof {
                    assert(cell(f as int, pairs[i as int].0 as int, sc) < samples@.len());
                    assert(cell(f as int, pairs[i as int].1 as int, oc_all) < before.len());
                    cell_position(f as int, oc as int, oc_all, frames as int);
                    cell_position(f as int, pc as int, sc, frames as int);
                    assert(0 <= f * sc && 0 <= f * oc_all) by (nonlinear_arith)
                        requires
                            0 <= f,
                            0 <= sc,
                            0 <= oc_all,
                    ;
                }
                let at: usize = f * out_channels + oc;
                let sum: T = (*plus)(out_block[at], samples[f * src_channels + pc]);
                let ghost was = out_block@;
                out_block[at] = sum;
                proof {
                    let terms = addends(samples@, sc, oc_all, next, frames as int, here);
                    assert(terms.drop_last() =~= addends(
                        samples@,
                        sc,
                        oc_all,
                        now,
                        frames as int,
                        here,
                    ));
                    assert(sums_to(*plus, before[here], terms.drop_last(), start[here]));
                    assert(was[here] == start[here]);
                    sums_to_step(*plus, before[here], terms, start[here], sum);
                    assert forall|j: int| 0 <= j < before.len() implies if j / oc_all < f + 1 && j
                        % oc_all == oc {
                        sums_to(
                            *plus,
                            before[j],
                            addends(samples@, sc, oc_all, next, frames as int, j),
                            #[trigger] out_block@[j],
                        )
                    } else {
                        out_block@[j] == start[j]
                    } by {
                        if j == here {
                        } else {
                            assert(out_block@[j] == was[j]);
                            if j / oc_all == f && j % oc_all == oc {
                                vstd::arithmetic::div_mod::lemma_fundamental_div_mod(j, oc_all);
                                assert(oc_all * f == f * oc_all) by (nonlinear_arith);
                            }
                        }
                    }
                }
                f = f + 1;
            }
            proof {
                assert forall|j: int| 0 <= j < before.len() implies sums_to(
                    *plus,
                    before[j],
                    addends(samples@, sc, oc_all, next, frames as int, j),
                    #[trigger] out_block@[j],
                ) by {
                    if j / oc_all < f && j % oc_all == oc {
                    } else {
                        assert(out_block@[j] == start[j]);
                    }
                }
            }
        }
        i = i + 1;
    }
    assert(pairs.take(i as int) =~= pairs);
}

/// Default playout buffer depth (ms) when `audio.jitter_ms` is unset. Shared by
/// the point-to-point `stream` path and the group `remote` path so both honor
/// the same knob and default.
pub const DEFAULT_JITTER_MS: u16 = 40;

/// The buffer depth in milliseconds: the configured one or the default, but at
/// least 5 ms so that a little cushion is left even if misconfigured.
pub open spec fn cushion_ms(jitter_ms: Option<u16>) -> nat {
    let ms = match jitter_ms {
        Some(ms) => ms,
        None => DEFAULT_JITTER_MS,
    };
    if ms < 5 {
        5
    } else {
        ms as nat
    }
}

/// The frames that play in the buffer depth at `sample_rate`.
pub open spec fn cushion_frames(jitter_ms: Option<u16>, sample_rate: u32) -> nat {
    cushion_ms(jitter_ms) * sample_rate as nat / 1000
}

fn cushion(jitter_ms: Option<u16>, sample_rate: u32) -> (frames: u64)
    ensures
        frames == cushion_frames(jitter_ms, sample_rate),
        frames <= 0xffff * 0xffff_ffff,
{
    let set: u16 = match jitter_ms {
        Some(ms) => ms,
        None => DEFAULT_JITTER_MS,
    };
    let ms: u64 = if set < 5 {
        5
    } else {
        set as u64
    };
    proof {
        assert(0 <= ms * sample_rate <= 0xffff * 0xffff_ffff) by (nonlinear_arith)
            requires
                0 <= ms <= 0xffff,
                0 <= sample_rate <= 0xffff_ffff,
        ;
    }
    ms * sample_rate as u64 / 1000
}

/// How many `frames_per_packet`-sized packets make up `jitter_ms` of audio at
/// `sample_rate`: a jitter buffer's prime depth (the playout latency cushion),
/// at least one. `JitterBuffer::new` clamps this to its own window, so large
/// values are safe.
pub fn prime_packets(jitter_ms: Option<u16>, sample_rate: u32, frames_per_packet: u8) -> (n: usize)
    requires
        frames_per_packet > 0,
        cushion_frames(jitter_ms, sample_rate) <= usize::MAX,
    ensures
        n == if cushion_frames(jitter_ms, sample_rate) < frames_per_packet {
            1
        } else {
            cushion_frames(jitter_ms, sample_rate) / frames_per_packet as nat
        },
{
    let target_frames: usize = cushion(jitter_ms, sample_rate) as usize;
    let n: usize = target_frames / frames_per_packet as usize;
    assert(n < 1 <==> target_frames < frames_per_packet) by (nonlinear_arith)
        requires
            n == target_frames as int / frames_per_packet as int,
            0 <= target_frames,
            0 < frames_per_packet,
    ;
    if n < 1 {
        1
    } else {
        n
    }
}

/// The depth in frames that a drain loop keeps queued in an output ring of
/// `ring_frames` frames: the occupancy that paces playout to the device clock.
/// It leaves room for one more packet.
pub fn target_frames(
    jitter_ms: Option<u16>,
    sample_rate: u32,
    ring_frames: usize,
    frames_per_packet: u8,
) -> (n: usize)
    requires
        frames_per_packet <= ring_frames,
        cushion_frames(jitter_ms, sample_rate) <= usize::MAX,
    ensures
        n == if cushion_frames(jitter_ms, sample_rate) < ring_frames - frames_per_packet {
            cushion_frames(jitter_ms, sample_rate) as int
        } else {
            ring_frames - frames_per_packet
        },
{
    let frames: usize = cushion(jitter_ms, sample_rate) as usize;
    let most: usize = ring_frames - frames_per_packet as usize;
    if frames < most {
        frames
    } else {
        most
    }
}

/// How long a packet of `frames` frames plays, in whole microseconds.
pub fn packet_micros(frames: u8, sample_rate: u32) -> (us: u64)
    requires
        sample_rate > 0,
    ensures
        us == frames * 1_000_000 / sample_rate as int,
{
    frames as u64 * 1_000_000 / sample_rate as u64
}

/// Takes a packet into a jitter buffer and says what that did.
pub fn ingest(jb: &mut JitterBuffer, pkt: AudioPacket) -> (r: Ingest)
    requires
        old(jb).wf(),
    ensures
        final(jb).wf(),
        final(jb).view() == old(jb).view().inserted(pkt@),
        r.resynced == old(jb).view().is_desync(pkt.seq),
        r.newly_primed == (!old(jb).view().primed && final(jb).view().primed),
{
    let was: bool = jb.is_primed();
    let resynced = jb.insert(pkt);
    Ingest { resynced, newly_primed: !was && jb.is_primed() }
}

/// Packet channel `i` carries local input `channels[i]`, in every frame.
pub proof fn packet_channel_is_chosen_input(
    block: Seq<u32>,
    in_channels: int,
    channels: Seq<u16>,
    frames: nat,
    f: int,
    i: int,
)
    requires
        0 <= f < frames,
        0 <= i < channels.len(),
    ensures
        picked(block, in_channels, channels, frames)[cell(f, i, channels.len() as int)]
            == block[cell(f, channels[i] as int, in_channels)],
{
    cell_position(f, i, channels.len() as int, frames as int);
}

/// A packet of up to 255 chosen channels carries exactly what its header
/// announces, so whoever receives it can read it.
pub proof fn packetized_is_complete(p: PacketView, block: Seq<u32>, in_channels: int, channels: Seq<u16>)
    requires
        channels.len() <= 255,
        p.channels == channels.len() % 256,
        p.samples == picked(block, in_channels, channels, p.frames as nat),
    ensures
        p.complete(),
{
    assert(p.frames as nat * channels.len() == p.frames * p.channels) by (nonlinear_arith)
        requires
            p.channels == channels.len(),
    ;
}

/// An output that no pair of the route names keeps its samples.
pub proof fn unrouted_output_is_untouched<T, F: Fn(T, T) -> T>(
    plus: F,
    before: Seq<T>,
    samples: Seq<T>,
    src_channels: int,
    out_channels: int,
    pairs: Seq<(u16, u16)>,
    frames: int,
    after: Seq<T>,
    j: int,
)
    requires
        mixed(plus, before, samples, src_channels, out_channels, pairs, frames, after),
        0 <= j < before.len(),
        forall|i: int| 0 <= i < pairs.len() ==> (#[trigger] pairs[i]).1 != j % out_channels,
    ensures
        after[j] == before[j],
{
    no_addends(samples, src_channels, out_channels, pairs, frames, j);
    let steps = choose|steps: Seq<T>| #[trigger]
        running_sums(plus, Seq::<T>::empty(), steps) && steps[0] == before[j] && steps.last()
            == after[j];
    assert(addends(samples, src_channels, out_channels, pairs, frames, j) =~= Seq::empty());
    assert(after[j] == after[j]);
}

proof fn no_addends<T>(
    samples: Seq<T>,
    src_channels: int,
    out_channels: int,
    pairs: Seq<(u16, u16)>,
    frames: int,
    j: int,
)
    requires
        forall|i: int| 0 <= i < pairs.len() ==> (#[trigger] pairs[i]).1 != j % out_channels,
    ensures
        addends(samples, src_channels, out_channels, pairs, frames, j).len() == 0,
    decreases pairs.len(),
{
    if pairs.len() > 0 {
        assert forall|i: int| 0 <= i < pairs.drop_last().len() implies (
        #[trigger] pairs.drop_last()[i]).1 != j % out_channels by {
            assert(pairs.drop_last()[i] == pairs[i]);
        }
        no_addends(samples, src_channels, out_channels, pairs.drop_last(), frames, j);
        assert(pairs.last() == pairs[pairs.len() - 1]);
    }
}

/// Peers that are mixed one after the other sum onto the same output: adding
/// first one's samples and then the other's is adding both.
pub proof fn peers_sum_on_an_output<T, F: Fn(T, T) -> T>(
    plus: F,
    start: T,
    first: Seq<T>,
    mid: T,
    second: Seq<T>,
    end: T,
)
    requires
        sums_to(plus, start, first, mid),
        sums_to(plus, mid, second, end),
    ensures
        sums_to(plus, start, first + second, end),
{
    let a = choose|steps: Seq<T>| #[trigger]
        running_sums(plus, first, steps) && steps[0] == start && steps.last() == mid;
    let b = choose|steps: Seq<T>| #[trigger]
        running_sums(plus, second, steps) && steps[0] == mid && steps.last() == end;
    let all = a + b.skip(1);
    let terms = first + second;
    assert forall|i: int| 0 <= i < terms.len() implies call_ensures(
        plus,
        (#[trigger] all[i], terms[i]),
        all[i + 1],
    ) by {
        if i < first.len() {
            assert(all[i] == a[i] && all[i + 1] == a[i + 1]);
        } else {
            let k = i - first.len();
            assert(all[i] == b[k]);
            assert(all[i + 1] == b[k + 1]);
        }
    }
    assert(running_sums(plus, terms, all));
}

/// Routing from end to end: where one side sends its inputs `channels` and the
/// other routes packet channel `a` to its output `b`, that output is given, in
/// every frame, the sample of input `channels[a]`, and nothing else by this
/// route. So `a` is a position in the sender's list, not one of its jacks.
pub proof fn routed_sample_is_the_chosen_input(
    block: Seq<u32>,
    in_channels: int,
    channels: Seq<u16>,
    out_channels: int,
    a: u16,
    b: u16,
    frames: nat,
    f: int,
)
    requires
        0 <= f < frames,
        a < channels.len(),
        b < out_channels,
    ensures
        addends(
            picked(block, in_channels, channels, frames),
            channels.len() as int,
            out_channels,
            seq![(a, b)],
            frames as int,
            cell(f, b as int, out_channels),
        ) == seq![block[cell(f, channels[a as int] as int, in_channels)]],
{
    let samples = picked(block, in_channels, channels, frames);
    let pairs = seq![(a, b)];
    let n = channels.len() as int;
    let j = cell(f, b as int, out_channels);
    packet_channel_is_chosen_input(block, in_channels, channels, frames, f, a as int);
    cell_position(f, b as int, out_channels, frames as int);
    assert(pairs.drop_last() =~= Seq::empty());
    assert(addends(samples, n, out_channels, pairs.drop_last(), frames as int, j).len() == 0);
    assert(pairs.last() == (a, b));
    assert(addends(samples, n, out_channels, pairs, frames as int, j)
        =~= seq![block[cell(f, channels[a as int] as int, in_channels)]]);
}

/// Adding up is a fold: where the addition of two samples is the function `sum`,
/// what comes out is every term added to the start, each once and in order.
pub proof fn adding_up_is_a_fold<T, F: Fn(T, T) -> T>(
    plus: F,
    sum: spec_fn(T, T) -> T,
    start: T,
    terms: Seq<T>,
    end: T,
)
    requires
        forall|a: T, b: T, c: T| #[trigger] call_ensures(plus, (a, b), c) ==> c == sum(a, b),
        sums_to(plus, start, terms, end),
    ensures
        end == terms.fold_left(start, sum),
{
    let steps = choose|steps: Seq<T>| #[trigger]
        running_sums(plus, terms, steps) && steps[0] == start && steps.last() == end;
    steps_are_folds(plus, sum, terms, steps, terms.len() as int);
    assert(terms.take(terms.len() as int) =~= terms);
}

proof fn steps_are_folds<T, F: Fn(T, T) -> T>(
    plus: F,
    sum: spec_fn(T, T) -> T,
    terms: Seq<T>,
    steps: Seq<T>,
    n: int,
)
    requires
        forall|a: T, b: T, c: T| #[trigger] call_ensures(plus, (a, b), c) ==> c == sum(a, b),
        running_sums(plus, terms, steps),
        0 <= n <= terms.len(),
    ensures
        steps[n] == terms.take(n).fold_left(steps[0], sum),
    decreases n,
{
    reveal(Seq::fold_left);
    if n > 0 {
        steps_are_folds(plus, sum, terms, steps, n - 1);
        assert(terms.take(n).drop_last() =~= terms.take(n - 1));
        assert(call_ensures(plus, (steps[n - 1], terms[n - 1]), steps[n - 1 + 1]));
    }
}

/// What a packet adds to output channel `o` of frame `f`, exactly: for each pair of
/// the route that leads there from a channel which the packet has, in the order of
/// the route, that channel's sample of the same frame.
pub proof fn addends_are_the_routed_samples<T>(
    samples: Seq<T>,
    src_channels: int,
    out_channels: int,
    pairs: Seq<(u16, u16)>,
    frames: int,
    f: int,
    o: int,
)
    requires
        0 <= f < frames,
        0 <= o < out_channels,
    ensures
        addends(samples, src_channels, out_channels, pairs, frames, f * out_channels + o)
            == pairs.filter(|p: (u16, u16)| p.1 == o && p.0 < src_channels).map_values(
            |p: (u16, u16)| samples[f * src_channels + p.0],
        ),
    decreases pairs.len(),
{
    reveal(Seq::filter);
    cell_position(f, o, out_channels, frames);
    let leads = |p: (u16, u16)| p.1 == o && p.0 < src_channels;
    let read = |p: (u16, u16)| samples[f * src_channels + p.0];
    if pairs.len() > 0 {
        let front = pairs.drop_last();
        addends_are_the_routed_samples(
            samples,
            src_channels,
            out_channels,
            front,
            frames,
            f,
            o,
        );
        if leads(pairs.last()) {
            assert(front.filter(leads).push(pairs.last()).map_values(read) =~= front.filter(
                leads,
            ).map_values(read).push(read(pairs.last())));
        }
    } else {
        assert(pairs.filter(leads).map_values(read) =~= Seq::empty());
    }
}

/// Positions behind the last frame are given nothing.
proof fn addends_end_with_the_frames<T>(
    samples: Seq<T>,
    src_channels: int,
    out_channels: int,
    pairs: Seq<(u16, u16)>,
    frames: int,
    j: int,
)
    requires
        j / out_channels >= frames,
    ensures
        addends(samples, src_channels, out_channels, pairs, frames, j).len() == 0,
    decreases pairs.len(),
{
    if pairs.len() > 0 {
        addends_end_with_the_frames(
            samples,
            src_channels,
            out_channels,
            pairs.drop_last(),
            frames,
            j,
        );
    }
}

/// Mixing a packet in adds to every output channel of every frame exactly the
/// samples of that frame that the route leads there, on top of what was there, and
/// leaves what is behind the last frame alone.
pub proof fn mixing_adds_the_routed_samples<T, F: Fn(T, T) -> T>(
    plus: F,
    sum: spec_fn(T, T) -> T,
    before: Seq<T>,
    samples: Seq<T>,
    src_channels: int,
    out_channels: int,
    pairs: Seq<(u16, u16)>,
    frames: int,
    after: Seq<T>,
)
    requires
        forall|a: T, b: T, c: T| #[trigger] call_ensures(plus, (a, b), c) ==> c == sum(a, b),
        mixed(plus, before, samples, src_channels, out_channels, pairs, frames, after),
        0 < out_channels,
        0 <= frames,
    ensures
        after.len() == before.len(),
        forall|f: int, o: int|
            0 <= f < frames && 0 <= o < out_channels && f * out_channels + o < before.len()
                ==> #[trigger] after[f * out_channels + o] == pairs.filter(
                |p: (u16, u16)| p.1 == o && p.0 < src_channels,
            ).map_values(|p: (u16, u16)| samples[f * src_channels + p.0]).fold_left(
                before[f * out_channels + o],
                sum,
            ),
        forall|j: int|
            frames * out_channels <= j < before.len() ==> #[trigger] after[j] == before[j],
{
    assert forall|f: int, o: int|
        0 <= f < frames && 0 <= o < out_channels && f * out_channels + o
            < before.len() implies #[trigger] after[f * out_channels + o] == pairs.filter(
        |p: (u16, u16)| p.1 == o && p.0 < src_channels,
    ).map_values(|p: (u16, u16)| samples[f * src_channels + p.0]).fold_left(
        before[f * out_channels + o],
        sum,
    ) by {
        let j = f * out_channels + o;
        cell_position(f, o, out_channels, frames);
        addends_are_the_routed_samples(samples, src_channels, out_channels, pairs, frames, f, o);
        adding_up_is_a_fold(
            plus,
            sum,
            before[j],
            addends(samples, src_channels, out_channels, pairs, frames, j),
            after[j],
        );
    }
    assert forall|j: int| frames * out_channels <= j < before.len() implies #[trigger] after[j]
        == before[j] by {
        assert(j / out_channels >= frames) by (nonlinear_arith)
            requires
                frames * out_channels <= j,
                0 < out_channels,
        ;
        assert(0 <= frames * out_channels) by (nonlinear_arith)
            requires
                0 <= frames,
                0 < out_channels,
        ;
        addends_end_with_the_frames(samples, src_channels, out_channels, pairs, frames, j);
        let terms = addends(samples, src_channels, out_channels, pairs, frames, j);
        adding_up_is_a_fold(plus, sum, before[j], terms, after[j]);
        reveal(Seq::fold_left);
    }
}

/// A packet of a captured block has the number, the rate and the frames that it was
/// given, and as many channels as were chosen, each as far as its field reaches;
/// channel `i` of frame `f` is what the chosen input number `i` held in that frame.
pub proof fn captured_packet_holds_the_chosen_inputs(
    block: Seq<u32>,
    in_channels: u16,
    channels: Seq<u16>,
    frames: u8,
    seq: u32,
    sample_rate: u32,
)
    ensures
        ({
            let p = captured_packet(block, in_channels, channels, frames, seq, sample_rate);
            &&& p.seq == seq
            &&& p.sample_rate == sample_rate % 0x1_0000
            &&& p.channels == channels.len() % 256
            &&& p.frames == frames
            &&& p.samples == picked(block, in_channels as int, channels, frames as nat)
            &&& p.samples.len() == frames * channels.len()
            &&& forall|f: int, i: int|
                0 <= f < frames && 0 <= i < channels.len() ==> #[trigger] p.samples[f
                    * channels.len() + i] == block[f * in_channels + channels[i]]
        }),
{
    let n = channels.len() as int;
    let p = captured_packet(block, in_channels, channels, frames, seq, sample_rate);
    assert forall|f: int, i: int| 0 <= f < frames && 0 <= i < n implies #[trigger] p.samples[f
        * channels.len() + i] == block[f * in_channels + channels[i]] by {
        cell_position(f, i, n, frames as int);
    }
}

/// A route can be read out of a packet exactly where, for every pair of it between
/// channels that both sides have, the packet holds that channel of every frame.
pub proof fn coverage_is_every_routed_sample(
    sample_count: int,
    src_channels: int,
    out_channels: int,
    pairs: Seq<(u16, u16)>,
    frames: int,
)
    ensures
        packet_covers(sample_count, src_channels, out_channels, pairs, frames) <==> forall|
            f: int,
            i: int,
        |
            0 <= f < frames && 0 <= i < pairs.len() && (#[trigger] pairs[i]).0 < src_channels
                && pairs[i].1 < out_channels ==> #[trigger] (f * src_channels) + pairs[i].0
                < sample_count,
{
    if packet_covers(sample_count, src_channels, out_channels, pairs, frames) {
        assert forall|f: int, i: int|
            0 <= f < frames && 0 <= i < pairs.len() && (#[trigger] pairs[i]).0 < src_channels
                && pairs[i].1 < out_channels implies #[trigger] (f * src_channels) + pairs[i].0
            < sample_count by {
            assert(cell(f, pairs[i].0 as int, src_channels) < sample_count);
        }
    }
}

/// A datagram that carries a packet which holds what its header announces reaches
/// the address that it was meant for, and is read there as that packet.
pub proof fn carried_packet_arrives(d: Datagram, dest: Addr, packet: PacketView)
    requires
        carries(d, dest, packet),
        packet.samples.len() == packet.frames * packet.channels,
    ensures
        d.dest == dest,
        crate::packet::reading(d.bytes@) == Some(packet),
{
    crate::packet::decode_inverts_encode(packet, Seq::empty());
    assert(d.bytes@ + Seq::<u8>::empty() =~= d.bytes@);
}

/// The cushion is as many frames as play in the configured time, in 40 ms where
/// none is configured, and in 5 ms where it is less.
pub proof fn cushion_is_the_configured_time(jitter_ms: Option<u16>, sample_rate: u32)
    ensures
        jitter_ms is None ==> cushion_frames(jitter_ms, sample_rate) == sample_rate * 40 / 1000,
        jitter_ms matches Some(ms) ==> {
            &&& ms >= 5 ==> cushion_frames(jitter_ms, sample_rate) == sample_rate * ms / 1000
            &&& ms < 5 ==> cushion_frames(jitter_ms, sample_rate) == sample_rate * 5 / 1000
        },
        header_rate(sample_rate) == sample_rate % 0x1_0000,
{
    let ms = cushion_ms(jitter_ms);
    assert(ms * sample_rate as nat == sample_rate * ms) by (nonlinear_arith);
    assert(jitter_ms is None ==> ms == 40);
}

} // verus!
