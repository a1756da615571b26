//! Channel lanes on one shared loopback device.
//!
//! macOS can't mint a virtual device per peer, so on the Mac the whole group is
//! multiplexed onto the channels of a single pre-installed BlackHole loopback
//! device. BlackHole loops output channel *k* back to input channel *k*. The
//! channels are therefore split into a **write region** (gorgon writes, the
//! user's app records: the low half) and a disjoint **read region** (the user's
//! app plays, gorgon reads: the high half). Because the two regions never
//! overlap, gorgon never reads back what it just wrote.

use vstd::prelude::*;
use crate::layout::{cell, cell_position, next_frame, position_cell};
use crate::text::{decimal, push_decimal};

verus! {

/// Why no lane could be had.
#[derive(Clone, Copy, PartialEq, Eq, Structural, Debug)]
pub enum LaneError {
    /// The record region `0..split` has no `need` channels left past `past`.
    Record { need: usize, past: usize, split: usize },
    /// The playback region `split..channels` has no `need` channels left past
    /// `past`.
    Playback { need: usize, past: usize, split: usize, channels: usize },
}

impl LaneError {
    /// The error in words.
    pub open spec fn text(self) -> Seq<char> {
        match self {
            LaneError::Record { need, past, split } => {
                "out of BlackHole record channels: need "@ + decimal(need as nat) + " past "@
                    + decimal(past as nat) + ", region is 0.."@ + decimal(split as nat)
            },
            LaneError::Playback { need, past, split, channels } => {
                "out of BlackHole playback channels: need "@ + decimal(need as nat) + " past "@
                    + decimal(past as nat) + ", region is "@ + decimal(split as nat) + ".."@
                    + decimal(channels as nat)
            },
        }
    }

    /// The error in words.
    pub fn message(&self) -> (s: String)
        ensures
            s@ == self.text(),
    {
        let mut s = String::new();
        match self {
            LaneError::Record { need, past, split } => {
                s.append("out of BlackHole record channels: need ");
                push_decimal(&mut s, *need as u64);
                s.append(" past ");
                push_decimal(&mut s, *past as u64);
                s.append(", region is 0..");
                push_decimal(&mut s, *split as u64);
            },
            LaneError::Playback { need, past, split, channels } => {
                s.append("out of BlackHole playback channels: need ");
                push_decimal(&mut s, *need as u64);
                s.append(" past ");
                push_decimal(&mut s, *past as u64);
                s.append(", region is ");
                push_decimal(&mut s, *split as u64);
                s.append("..");
                push_decimal(&mut s, *channels as u64);
            },
        }
        assert(s@ =~= self.text());
        s
    }
}

/// Allocates disjoint channel lanes on the device: write lanes grow up from 0,
/// read lanes grow up from `split`. Both are bounded so they never overlap.
pub struct ChannelMap {
    channels: usize,
    split: usize,
    write_next: usize,
    read_next: usize,
}

/// What a [`ChannelMap`] holds.
pub struct ChannelMapView {
    pub channels: nat,
    pub split: nat,
    /// Where the next write lane starts.
    pub write_next: nat,
    /// Where the next read lane starts.
    pub read_next: nat,
}

impl ChannelMapView {
    /// The lanes handed out so far stand in their regions.
    pub open spec fn valid(self) -> bool {
        &&& self.write_next <= self.split
        &&& self.split <= self.read_next
        &&& self.read_next <= self.channels || self.read_next == self.split
    }

    pub open spec fn can_write(self, width: nat) -> bool {
        self.write_next + width <= self.split
    }

    pub open spec fn can_read(self, width: nat) -> bool {
        self.read_next + width <= self.channels
    }

    /// The map once a write lane of `width` channels has been handed out.
    pub open spec fn with_write(self, width: nat) -> ChannelMapView {
        ChannelMapView { write_next: self.write_next + width, ..self }
    }

    /// The map once a read lane of `width` channels has been handed out.
    pub open spec fn with_read(self, width: nat) -> ChannelMapView {
        ChannelMapView { read_next: self.read_next + width, ..self }
    }
}

impl View for ChannelMap {
    type V = ChannelMapView;

    closed spec fn view(&self) -> ChannelMapView {
        ChannelMapView {
            channels: self.channels as nat,
            split: self.split as nat,
            write_next: self.write_next as nat,
            read_next: self.read_next as nat,
        }
    }
}

impl ChannelMap {
    pub open spec fn wf(&self) -> bool {
        self@.valid()
    }

    /// A map of `channels` channels, of which those from `split` on are played
    /// into.
    pub fn new(channels: usize, split: usize) -> (m: ChannelMap)
        ensures
            m.wf(),
            m@ == (ChannelMapView {
                channels: channels as nat,
                split: split as nat,
                write_next: 0,
                read_next: split as nat,
            }),
    {
        ChannelMap { channels, split, write_next: 0, read_next: split }
    }

    /// Allocates `width` channels gorgon WRITES (the user records these).
    /// Returns the starting channel offset.
    pub fn alloc_write(&mut self, width: usize) -> (r: Result<usize, LaneError>)
        requires
            old(self).wf(),
        ensures
            final(self).wf(),
            r is Ok <==> old(self)@.can_write(width as nat),
            match r {
                Ok(off) => {
                    &&& off == old(self)@.write_next
                    &&& final(self)@ == old(self)@.with_write(width as nat)
                },
                Err(e) => {
                    &&& final(self)@ == old(self)@
                    &&& e matches LaneError::Record { need, past, split }
                    &&& need == width
                    &&& past == old(self)@.write_next
                    &&& split == old(self)@.split
                },
            },
    {
        let off: usize = self.write_next;
        if width > self.split - off {
            return Err(LaneError::Record { need: width, past: off, split: self.split });
        }
        self.write_next = off + width;
        Ok(off)
    }

    /// Allocates `width` channels gorgon READS (the user plays into these).
    /// Returns the starting channel offset.
    pub fn alloc_read(&mut self, width: usize) -> (r: Result<usize, LaneError>)
        requires
            old(self).wf(),
        ensures
            final(self).wf(),
            r is Ok <==> old(self)@.can_read(width as nat),
            match r {
                Ok(off) => {
                    &&& off == old(self)@.read_next
                    &&& final(self)@ == old(self)@.with_read(width as nat)
                },
                Err(e) => {
                    &&& final(self)@ == old(self)@
                    &&& e matches LaneError::Playback { need, past, split, channels }
                    &&& need == width
                    &&& past == old(self)@.read_next
                    &&& split == old(self)@.split
                    &&& channels == old(self)@.channels
                },
            },
    {
        let off: usize = self.read_next;
        if off > self.channels || width > self.channels - off {
            return Err(
                LaneError::Playback {
                    need: width,
                    past: off,
                    split: self.split,
                    channels: self.channels,
                },
            );
        }
        self.read_next = off + width;
        Ok(off)
    }
}

/// A request for a lane.
pub enum LaneRequest {
    Write(nat),
    Read(nat),
}

/// The map once `requests` have been answered, one after the other.
pub open spec fn answered(m: ChannelMapView, requests: Seq<LaneRequest>) -> ChannelMapView
    decreases requests.len(),
{
    if requests.len() == 0 {
        m
    } else {
        let before = answered(m, requests.drop_last());
        match requests.last() {
            LaneRequest::Write(w) => if before.can_write(w) {
                before.with_write(w)
            } else {
                before
            },
            LaneRequest::Read(w) => if before.can_read(w) {
                before.with_read(w)
            } else {
                before
            },
        }
    }
}

/// Channel `c` belongs to the lane that request number `i` was given.
pub open spec fn in_lane(m: ChannelMapView, requests: Seq<LaneRequest>, i: int, c: nat) -> bool {
    let before = answered(m, requests.take(i));
    match requests[i] {
        LaneRequest::Write(w) => before.can_write(w) && before.write_next <= c < before.write_next
            + w,
        LaneRequest::Read(w) => before.can_read(w) && before.read_next <= c < before.read_next + w,
    }
}

proof fn answers_only_grow(m: ChannelMapView, requests: Seq<LaneRequest>, i: int)
    requires
        m.valid(),
        0 <= i <= requests.len(),
    ensures
        answered(m, requests).valid(),
        answered(m, requests).split == m.split,
        answered(m, requests).channels == m.channels,
        answered(m, requests.take(i)).write_next <= answered(m, requests).write_next,
        answered(m, requests.take(i)).read_next <= answered(m, requests).read_next,
    decreases requests.len(),
{
    if requests.len() > 0 {
        let front = requests.drop_last();
        if i < requests.len() {
            answers_only_grow(m, front, i);
            assert(front.take(i) =~= requests.take(i));
        } else {
            answers_only_grow(m, front, front.len() as int);
            assert(requests.take(i) =~= requests);
        }
    } else {
        assert(requests.take(i) =~= requests);
    }
}

/// However lanes are asked for, no channel is ever in two of them; a lane that
/// gorgon writes stays below `split`, and one that it reads stays at or above
/// it, so what is written never comes back as something played.
pub proof fn lanes_are_disjoint(
    m: ChannelMapView,
    requests: Seq<LaneRequest>,
    i: int,
    j: int,
    c: nat,
)
    requires
        m.valid(),
        0 <= i < j < requests.len(),
        in_lane(m, requests, i, c),
    ensures
        !in_lane(m, requests, j, c),
        requests[i] is Write ==> c < m.split,
        requests[i] is Read ==> m.split <= c < m.channels,
{
    let upto = requests.take(i + 1);
    assert(upto.drop_last() =~= requests.take(i));
    assert(requests.take(j).take(i + 1) =~= upto);
    answers_only_grow(m, requests.take(j), i + 1);
    answers_only_grow(m, requests.take(i), 0);
}

/// Where sample `k` of a `width`-channel block stands in a frame of `channels`
/// channels, when the block's lane starts at channel `offset`.
pub open spec fn lane_cell(k: int, channels: int, offset: int, width: int) -> int {
    (k / width) * channels + offset + k % width
}

/// How many samples of a block have a frame to go to.
pub open spec fn lane_len(frame_len: nat, channels: int, width: int, block_len: nat) -> nat {
    let room = (frame_len as int / channels) * width;
    if block_len < room {
        block_len
    } else {
        room as nat
    }
}

/// `frame` with the first `n` samples of `block` written to their cells, one
/// after the other.
pub open spec fn placed<T>(
    frame: Seq<T>,
    channels: int,
    offset: int,
    width: int,
    block: Seq<T>,
    n: nat,
) -> Seq<T>
    decreases n,
{
    if n == 0 {
        frame
    } else {
        placed(frame, channels, offset, width, block, (n - 1) as nat).update(
            lane_cell(n - 1, channels, offset, width),
            block[n - 1],
        )
    }
}

/// The first `n` cells of a lane stand in a frame of `frame_len` samples.
pub open spec fn lane_inside(frame_len: int, channels: int, offset: int, width: int, n: int) -> bool {
    forall|k: int| 0 <= k < n ==> #[trigger] lane_cell(k, channels, offset, width) < frame_len
}

/// The channels `[offset, offset+width)` of `frame`, as a block of their own.
pub open spec fn extracted<T>(frame: Seq<T>, channels: int, offset: int, width: int) -> Seq<T> {
    Seq::new(
        ((frame.len() as int / channels) * width) as nat,
        |k: int| frame[lane_cell(k, channels, offset, width)],
    )
}

proof fn lane_cell_of(f: int, c: int, channels: int, offset: int, width: int)
    requires
        0 <= f,
        0 <= c < width,
    ensures
        lane_cell(f * width + c, channels, offset, width) == f * channels + offset + c,
        0 <= f * width,
{
    cell_position(f, c, width, f + 1);
}

/// Copies a `width`-channel interleaved `block` into channels
/// `[offset, offset+width)` of a `channels`-wide interleaved `frame`. Other
/// channels are left untouched.
pub fn place_lane<T: Copy>(
    frame: &mut [T],
    channels: usize,
    offset: usize,
    width: usize,
    block: &[T],
)
    requires
        channels > 0,
        (old(frame)@.len() as int / channels as int) * width <= usize::MAX,
        lane_inside(
            old(frame)@.len() as int,
            channels as int,
            offset as int,
            width as int,
            lane_len(old(frame)@.len(), channels as int, width as int, block@.len()) as int,
        ),
    ensures
        final(frame)@ == placed(
            old(frame)@,
            channels as int,
            offset as int,
            width as int,
            block@,
            lane_len(old(frame)@.len(), channels as int, width as int, block@.len()),
        ),
{
    let frames: usize = frame.len() / channels;
    let frame_len: usize = frame.len();
    let block_len: usize = block.len();
    let ghost before = frame@;
    let ghost (ch, off, w) = (channels as int, offset as int, width as int);
    let ghost total = lane_len(before.len(), ch, w, block@.len());
    let mut f: usize = 0;
    let ghost mut done: nat = 0;
    proof {
        next_frame(0, w);
        assert(0 <= frames * w) by (nonlinear_arith)
            requires
                0 <= frames,
                0 <= w,
        ;
    }
    while f < frames
        invariant
            f <= frames,
            frames == before.len() as int / ch,
            frames * w <= usize::MAX,
            ch == channels,
            off == offset,
            w == width,
            before.len() == frame_len,
            block_len == block@.len(),
            total == lane_len(before.len(), ch, w, block@.len()),
            lane_inside(before.len() as int, ch, off, w, total as int),
            frame@.len() == before.len(),
            done == if f * w < block_len {
                f * w
            } else {
                block_len as int
            },
            done <= total,
            frame@ == placed(before, ch, off, w, block@, done),
        decreases frames - f,
    {
        proof {
            next_frame(f as int, w);
            assert(0 <= f * w && f * w + w <= frames * w) by (nonlinear_arith)
                requires
                    0 <= f < frames,
                    0 <= w,
            ;
        }
        let start: usize = f * width;
        let mut c: usize = 0;
        while c < width && start + c < block_len
            invariant
                c <= width,
                f < frames,
                start == f * w,
                start + w <= frames * w,
                frames == before.len() as int / ch,
                frames * w <= usize::MAX,
                ch == channels,
                off == offset,
                w == width,
                before.len() == frame_len,
                block_len == block@.len(),
                total == lane_len(before.len(), ch, w, block@.len()),
                lane_inside(before.len() as int, ch, off, w, total as int),
                frame@.len() == before.len(),
                done == if start + c < block_len {
                    start + c
                } else {
                    block_len as int
                },
                frame@ == placed(before, ch, off, w, block@, done),
            decreases width - c,
        {
            proof {
                lane_cell_of(f as int, c as int, ch, off, w);
                assert(done == start + c);
                assert(done < total);
                assert(lane_cell(done as int, ch, off, w) < before.len());
                assert(0 <= f * ch) by (nonlinear_arith)
                    requires
                        0 <= f,
                        0 <= ch,
                ;
            }
            frame[f * channels + offset + c] = block[start + c];
            proof {
                done = done + 1;
            }
            c = c + 1;
        }
        f = f + 1;
    }
}

/// Pulls channels `[offset, offset+width)` out of a `channels`-wide interleaved
/// `frame` into a fresh `width`-channel interleaved block.
pub fn extract_lane<T: Copy>(frame: &[T], channels: usize, offset: usize, width: usize) -> (out:
    Vec<T>)
    requires
        channels > 0,
        (frame@.len() as int / channels as int) * width <= usize::MAX,
        lane_inside(
            frame@.len() as int,
            channels as int,
            offset as int,
            width as int,
            (frame@.len() as int / channels as int) * width,
        ),
    ensures
        out@ == extracted(frame@, channels as int, offset as int, width as int),
{
    let frames: usize = frame.len() / channels;
    let frame_len: usize = frame.len();
    let ghost (ch, off, w) = (channels as int, offset as int, width as int);
    let ghost all = extracted(frame@, ch, off, w);
    let mut out: Vec<T> = Vec::new();
    let mut f: usize = 0;
    proof {
        next_frame(0, w);
        assert(0 <= frames * w) by (nonlinear_arith)
            requires
                0 <= frames,
                0 <= w,
        ;
    }
    while f < frames
        invariant
            f <= frames,
            frames == frame@.len() as int / ch,
            frames * w <= usize::MAX,
            ch == channels,
            off == offset,
            w == width,
            frame@.len() == frame_len,
            lane_inside(frame@.len() as int, ch, off, w, frames * w),
            all == extracted(frame@, ch, off, w),
            0 <= f * w <= frames * w,
            out@ =~= all.take(f * w),
        decreases frames - f,
    {
        proof {
            next_frame(f as int, w);
            assert(0 <= f * w && f * w + w <= frames * w) by (nonlinear_arith)
                requires
                    0 <= f < frames,
                    0 <= w,
            ;
        }
        let mut c: usize = 0;
        while c < width
            invariant
                c <= width,
                f < frames,
                0 <= f * w,
                f * w + w <= frames * w,
                frames == frame@.len() as int / ch,
                frames * w <= usize::MAX,
                ch == channels,
                off == offset,
                w == width,
                frame@.len() == frame_len,
                lane_inside(frame@.len() as int, ch, off, w, frames * w),
                all == extracted(frame@, ch, off, w),
                out@ =~= all.take(f * w + c),
            decreases width - c,
        {
            proof {
                lane_cell_of(f as int, c as int, ch, off, w);
                assert(lane_cell(f * w + c, ch, off, w) < frame@.len());
                assert(0 <= f * ch) by (nonlinear_arith)
                    requires
                        0 <= f,
                        0 <= ch,
                ;
            }
            out.push(frame[f * channels + offset + c]);
            c = c + 1;
        }
        f = f + 1;
    }
    out
}

/// The lane stands inside a frame of `channels` channels.
pub open spec fn lane_fits(channels: int, offset: int, width: int) -> bool {
    0 <= offset && 0 <= width && offset + width <= channels && 0 < channels
}

/// A lane that fits in a frame has every cell inside.
pub proof fn fitting_lane_is_inside(frame_len: nat, channels: int, offset: int, width: int, n: int)
    requires
        lane_fits(channels, offset, width),
        n <= (frame_len as int / channels) * width,
    ensures
        lane_inside(frame_len as int, channels, offset, width, n),
{
    let frames = frame_len as int / channels;
    assert forall|k: int| 0 <= k < n implies #[trigger] lane_cell(k, channels, offset, width)
        < frame_len by {
        assert(0 < width) by (nonlinear_arith)
            requires
                0 <= k < frames * width,
                0 <= width,
        ;
        position_cell(k, width, frames);
        cell_position(k / width, offset + k % width, channels, frames);
        vstd::arithmetic::div_mod::lemma_fundamental_div_mod(frame_len as int, channels);
        assert(frames * channels == channels * frames) by (nonlinear_arith);
    }
}

/// What stands at position `p` of a frame once a lane has been placed in it: the
/// block's sample where `p` is in the lane and the block reaches that far, and
/// what was there before everywhere else.
pub proof fn placing_touches_only_its_lane<T>(
    frame: Seq<T>,
    channels: int,
    offset: int,
    width: int,
    block: Seq<T>,
    n: nat,
    p: int,
)
    requires
        lane_fits(channels, offset, width),
        n <= (frame.len() as int / channels) * width,
        0 <= p < frame.len(),
    ensures
        placed(frame, channels, offset, width, block, n).len() == frame.len(),
        placed(frame, channels, offset, width, block, n)[p] == {
            let k = (p / channels) * width + (p % channels - offset);
            if offset <= p % channels < offset + width && k < n {
                block[k]
            } else {
                frame[p]
            }
        },
    decreases n,
{
    let frames = frame.len() as int / channels;
    let f = p / channels;
    let c = p % channels;
    assert(0 <= f * width) by (nonlinear_arith)
        requires
            0 <= f,
            0 <= width,
            f == p / channels,
            0 <= p,
            0 < channels,
    ;
    if n > 0 {
        let m = (n - 1) as nat;
        placing_touches_only_its_lane(frame, channels, offset, width, block, m, p);
        assert(0 < width) by (nonlinear_arith)
            requires
                0 < frames * width,
                0 <= width,
        ;
        position_cell(m as int, width, frames);
        let g = m as int / width;
        let d = m as int % width;
        cell_position(g, offset + d, channels, frames);
        fitting_lane_is_inside(frame.len(), channels, offset, width, n as int);
        let q = lane_cell(m as int, channels, offset, width);
        assert(q == g * channels + (offset + d));
        vstd::arithmetic::div_mod::lemma_fundamental_div_mod(p, channels);
        assert(channels * f == f * channels) by (nonlinear_arith);
        if p == q {
            assert(f == g && c == offset + d);
            assert(f * width + (c - offset) == m);
        } else if offset <= c < offset + width && f * width + (c - offset) == m {
            cell_position(f, c - offset, width, f + 1);
            assert(g == f && d == c - offset);
        }
    }
}

/// What is placed in a lane is what is read from it.
pub proof fn extract_inverts_place<T>(
    frame: Seq<T>,
    channels: int,
    offset: int,
    width: int,
    block: Seq<T>,
)
    requires
        lane_fits(channels, offset, width),
        block.len() == (frame.len() as int / channels) * width,
    ensures
        extracted(
            placed(frame, channels, offset, width, block, block.len()),
            channels,
            offset,
            width,
        ) == block,
{
    let after = placed(frame, channels, offset, width, block, block.len());
    let frames = frame.len() as int / channels;
    placed_len(frame, channels, offset, width, block, block.len());
    assert forall|k: int| 0 <= k < block.len() implies extracted(after, channels, offset, width)[k]
        == block[k] by {
        assert(0 < width) by (nonlinear_arith)
            requires
                0 <= k < frames * width,
                0 <= width,
        ;
        position_cell(k, width, frames);
        let p = lane_cell(k, channels, offset, width);
        cell_position(k / width, offset + k % width, channels, frames);
        fitting_lane_is_inside(frame.len(), channels, offset, width, block.len() as int);
        placing_touches_only_its_lane(frame, channels, offset, width, block, block.len(), p);
    }
    assert(extracted(after, channels, offset, width) =~= block);
}

/// Placing a lane keeps the frame's length.
pub proof fn placed_len<T>(
    frame: Seq<T>,
    channels: int,
    offset: int,
    width: int,
    block: Seq<T>,
    n: nat,
)
    requires
        lane_fits(channels, offset, width),
        n <= (frame.len() as int / channels) * width,
    ensures
        placed(frame, channels, offset, width, block, n).len() == frame.len(),
{
    if frame.len() > 0 {
        placing_touches_only_its_lane(frame, channels, offset, width, block, n, 0);
    } else {
        assert(frame.len() as int / channels == 0) by (nonlinear_arith)
            requires
                frame.len() == 0,
                0 < channels,
        ;
        next_frame(0, width);
    }
}

/// Placing a lane leaves every lane that shares no channel with it as it was.
pub proof fn placing_leaves_other_lanes<T>(
    frame: Seq<T>,
    channels: int,
    offset: int,
    width: int,
    block: Seq<T>,
    n: nat,
    other_offset: int,
    other_width: int,
)
    requires
        lane_fits(channels, offset, width),
        lane_fits(channels, other_offset, other_width),
        offset + width <= other_offset || other_offset + other_width <= offset,
        n <= (frame.len() as int / channels) * width,
    ensures
        extracted(
            placed(frame, channels, offset, width, block, n),
            channels,
            other_offset,
            other_width,
        ) == extracted(frame, channels, other_offset, other_width),
{
    let after = placed(frame, channels, offset, width, block, n);
    let frames = frame.len() as int / channels;
    placed_len(frame, channels, offset, width, block, n);
    let was = extracted(frame, channels, other_offset, other_width);
    let now = extracted(after, channels, other_offset, other_width);
    assert forall|k: int| 0 <= k < was.len() implies now[k] == was[k] by {
        assert(0 < other_width) by (nonlinear_arith)
            requires
                0 <= k < frames * other_width,
                0 <= other_width,
        ;
        position_cell(k, other_width, frames);
        let p = lane_cell(k, channels, other_offset, other_width);
        cell_position(k / other_width, other_offset + k % other_width, channels, frames);
        fitting_lane_is_inside(
            frame.len(),
            channels,
            other_offset,
            other_width,
            frames * other_width,
        );
        placing_touches_only_its_lane(frame, channels, offset, width, block, n, p);
    }
    assert(now =~= was);
}

/// How the channels of the loopback device are used.
#[derive(Clone, Copy, PartialEq, Eq, Structural, Debug)]
pub struct HubLayout {
    /// Channels that run in both directions.
    pub channels: usize,
    /// First channel of the read region: write lanes live in `0..split`, read
    /// lanes in `split..channels`.
    pub split: usize,
}

/// The device has too few duplex channels to hold two regions.
#[derive(Clone, Copy, PartialEq, Eq, Structural, Debug)]
pub struct TooFewChannels {
    pub channels: usize,
}

impl TooFewChannels {
    pub open spec fn text(self, device_name: Seq<char>) -> Seq<char> {
        "device '"@ + device_name + "' has only "@ + decimal(self.channels as nat)
            + " duplex channel(s)"@
    }

    /// The error in words.
    pub fn message(&self, device_name: &str) -> (s: String)
        ensures
            s@ == self.text(device_name@),
    {
        let mut s = String::new();
        s.append("device '");
        s.append(device_name);
        s.append("' has only ");
        push_decimal(&mut s, self.channels as u64);
        s.append(" duplex channel(s)");
        assert(s@ =~= self.text(device_name@));
        s
    }
}

/// Lays out a device of `max_in` input and `max_out` output channels: as many
/// duplex channels as both directions have, the lower half to be written and
/// the upper half to be read. Refused where there are fewer than two.
pub fn hub_layout(max_in: u16, max_out: u16) -> (r: Result<HubLayout, TooFewChannels>)
    ensures
        ({
            let channels = if max_in < max_out {
                max_in
            } else {
                max_out
            };
            &&& channels >= 2 ==> r == Ok::<HubLayout, TooFewChannels>(
                HubLayout { channels: channels as usize, split: (channels / 2) as usize },
            )
            &&& channels < 2 ==> r == Err::<HubLayout, TooFewChannels>(
                TooFewChannels { channels: channels as usize },
            )
        }),
{
    let channels: usize = if max_in < max_out {
        max_in as usize
    } else {
        max_out as usize
    };
    if channels < 2 {
        return Err(TooFewChannels { channels });
    }
    Ok(HubLayout { channels, split: channels / 2 })
}

/// What is read out of a lane: sample `c` of frame `f` is what channel `offset + c`
/// held in that frame, for every whole frame and every channel of the lane.
pub proof fn extracted_block_is_the_lane<T>(frame: Seq<T>, channels: int, offset: int, width: int)
    requires
        0 < channels,
        0 <= width,
    ensures
        extracted(frame, channels, offset, width).len() == (frame.len() as int / channels) * width,
        forall|f: int, c: int|
            0 <= f < frame.len() as int / channels && 0 <= c < width ==> #[trigger] extracted(
                frame,
                channels,
                offset,
                width,
            )[f * width + c] == frame[f * channels + offset + c],
{
    let frames = frame.len() as int / channels;
    assert(0 <= frames * width) by (nonlinear_arith)
        requires
            frames == frame.len() as int / channels,
            0 < channels,
            0 <= width,
    ;
    assert forall|f: int, c: int| 0 <= f < frames && 0 <= c < width implies #[trigger] extracted(
        frame,
        channels,
        offset,
        width,
    )[f * width + c] == frame[f * channels + offset + c] by {
        cell_position(f, c, width, frames);
        lane_cell_of(f, c, channels, offset, width);
    }
}

/// What is placed in a lane: channel `offset + c` of frame `f` holds sample `c` of
/// frame `f` of the block from then on, for every sample that the block has and
/// every whole frame; everything else is as it was.
pub proof fn placed_block_stands_in_its_lane<T>(
    frame: Seq<T>,
    channels: int,
    offset: int,
    width: int,
    block: Seq<T>,
)
    requires
        0 < channels,
        0 <= offset,
        0 <= width,
        offset + width <= channels,
    ensures
        ({
            let n = lane_len(frame.len(), channels, width, block.len());
            let after = placed(frame, channels, offset, width, block, n);
            let frames = frame.len() as int / channels;
            &&& after.len() == frame.len()
            &&& forall|f: int, c: int|
                0 <= f < frames && 0 <= c < channels ==> (#[trigger] after[f * channels + c])
                    == if offset <= c < offset + width && f * width + (c - offset)
                    < block.len() {
                    block[f * width + (c - offset)]
                } else {
                    frame[f * channels + c]
                }
            &&& forall|p: int|
                frames * channels <= p < frame.len() ==> (#[trigger] after[p]) == frame[p]
        }),
{
    let n = lane_len(frame.len(), channels, width, block.len());
    let after = placed(frame, channels, offset, width, block, n);
    let frames = frame.len() as int / channels;
    assert(0 <= frames * width && 0 <= frames * channels <= frame.len()) by (nonlinear_arith)
        requires
            frames == frame.len() as int / channels,
            0 < channels,
            0 <= width,
    ;
    placed_len(frame, channels, offset, width, block, n);
    assert forall|f: int, c: int| 0 <= f < frames && 0 <= c < channels implies (
    #[trigger] after[f * channels + c]) == if offset <= c < offset + width && f * width + (c
        - offset) < block.len() {
        block[f * width + (c - offset)]
    } else {
        frame[f * channels + c]
    } by {
        let p = f * channels + c;
        cell_position(f, c, channels, frames);
        placing_touches_only_its_lane(frame, channels, offset, width, block, n, p);
        if offset <= c < offset + width {
            cell_position(f, c - offset, width, frames);
        }
    }
    assert forall|p: int| frames * channels <= p < frame.len() implies (#[trigger] after[p])
        == frame[p] by {
        placing_touches_only_its_lane(frame, channels, offset, width, block, n, p);
        assert(p / channels >= frames) by (nonlinear_arith)
            requires
                frames * channels <= p,
                0 < channels,
        ;
        let k = (p / channels) * width + (p % channels - offset);
        if offset <= p % channels < offset + width {
            assert(k >= frames * width) by (nonlinear_arith)
                requires
                    k == (p / channels) * width + (p % channels - offset),
                    p / channels >= frames,
                    p % channels >= offset,
                    0 <= width,
            ;
        }
    }
}

/// A lane is handed out exactly where its region has that many channels left, and
/// the next one starts behind it.
pub proof fn lanes_are_handed_out_while_there_is_room(m: ChannelMapView, width: nat)
    ensures
        m.can_write(width) <==> m.write_next + width <= m.split,
        m.can_read(width) <==> m.read_next + width <= m.channels,
        m.with_write(width).write_next == m.write_next + width,
        m.with_write(width).read_next == m.read_next,
        m.with_read(width).read_next == m.read_next + width,
        m.with_read(width).write_next == m.write_next,
        m.with_write(width).split == m.split && m.with_read(width).split == m.split,
        m.with_write(width).channels == m.channels && m.with_read(width).channels == m.channels,
{
}

/// Every message about lanes that could not be had is worded with `p` around what was
/// needed, where the free channels start and the bounds of the region.
pub open spec fn lanes_worded(record: bool, p: Seq<Seq<char>>) -> bool {
    if record {
        forall|need: usize, past: usize, split: usize|
            (#[trigger] (LaneError::Record { need, past, split }).text()) == p[0] + decimal(
                need as nat,
            ) + p[1] + decimal(past as nat) + p[2] + decimal(split as nat)
    } else {
        forall|need: usize, past: usize, split: usize, channels: usize|
            (#[trigger] (LaneError::Playback { need, past, split, channels }).text()) == p[0]
                + decimal(need as nat) + p[1] + decimal(past as nat) + p[2] + decimal(
                split as nat,
            ) + p[3] + decimal(channels as nat)
    }
}

/// Every message about a device with too few channels is worded with `p` around its
/// name and its channels.
pub open spec fn devices_worded(p: Seq<Seq<char>>) -> bool {
    forall|e: TooFewChannels, name: Seq<char>|
        (#[trigger] e.text(name)) == p[0] + name + p[1] + decimal(e.channels as nat) + p[2]
}

/// The messages about lanes and devices are worded alike, whatever they are about:
/// only the numbers and the name differ, and these stand there in full.
pub proof fn lane_messages_are_worded_alike()
    ensures
        exists|p: Seq<Seq<char>>| #[trigger] lanes_worded(true, p),
        exists|p: Seq<Seq<char>>| #[trigger] lanes_worded(false, p),
        exists|p: Seq<Seq<char>>| #[trigger] devices_worded(p),
{
    let p = seq!["out of BlackHole record channels: need "@, " past "@, ", region is 0.."@];
    assert(lanes_worded(true, p));
    let q = seq![
        "out of BlackHole playback channels: need "@,
        " past "@,
        ", region is "@,
        ".."@,
    ];
    assert(lanes_worded(false, q));
    let d = seq!["device '"@, "' has only "@, " duplex channel(s)"@];
    assert(devices_worded(d));
}

} // verus!
