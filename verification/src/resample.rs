//! Adaptive resampling that removes residual clock drift between machines.
//!
//! Two sound cards with no shared word clock drift ~100 ppm apart; the jitter
//! buffer only *bounds* the resulting fill creep with a periodic resync (an
//! audible glitch every several minutes). [`Resampler`] wraps a [`Playout`] and
//! continuously resamples its output by a ratio steered by a delay-locked loop
//! on the buffer fill, so that the fill holds steady and playout matches the
//! local device. The arithmetic on sample values and rates is the caller's: the
//! resampler carries both as patterns.
//!
//! The interpolation kernel reads four consecutive frames `x[i-1..=i+2]`. The
//! window's first frame is `x[i-1]`.

use vstd::prelude::*;
use crate::jitter::{
    after_plays, filled_bound, played_is_valid, playing_uses_up_the_reserve, BlockView, Ingest,
    Playout, PlayoutView,
};
use crate::layout::{cell_position, position_cell};
use crate::packet::{AudioPacket, PacketView};

verus! {

/// Frames that the kernel reads.
pub const KERNEL_FRAMES: usize = 4;

/// What a [`Resampler`] reads through.
pub struct WindowView {
    pub play: PlayoutView,
    /// Interleaved input frames not yet consumed.
    pub fifo: Seq<u32>,
    /// Channel width of the window, zero while it is empty.
    pub channels: nat,
}

/// How an attempt to fill the window ended.
#[derive(Clone, Copy, PartialEq, Eq, Structural, Debug)]
pub enum Fill {
    /// The window holds the frames that the kernel reads.
    Ready,
    /// The playout has no further block.
    Underrun,
    /// A block to start the window with has no channels, or not one whole frame.
    Broken,
}

impl WindowView {
    /// The window holds the frames that the kernel reads.
    pub open spec fn full(self) -> bool {
        self.channels > 0 && self.fifo.len() / self.channels >= KERNEL_FRAMES
    }

    /// The next block starts the window over: it is empty, or the peer has
    /// changed the width.
    pub open spec fn starts_over(self) -> bool {
        self.channels == 0 || self.play.next_block().1 != self.channels
    }

    /// A window can start with `b`: it has at least one whole frame.
    pub open spec fn can_start(b: BlockView) -> bool {
        0 < b.1 <= b.0.len()
    }

    /// The window once the next block has been pulled in. A window that starts
    /// over holds the first frame twice: the copy is the kernel's left
    /// neighbour, so that playout starts on the grid.
    pub open spec fn pulled(self) -> WindowView {
        let b = self.play.next_block();
        if self.starts_over() {
            WindowView {
                play: self.play.played(),
                fifo: b.0.take(b.1 as int) + b.0,
                channels: b.1 as nat,
            }
        } else {
            WindowView {
                play: self.play.played(),
                fifo: self.fifo + b.0,
                channels: self.channels,
            }
        }
    }

    /// Pulls blocks in until the window is full: how that ends, and what the
    /// window is then.
    pub open spec fn filled(self) -> (Fill, WindowView)
        decreases self.play.reserve(),
        when self.play.valid()
        via Self::filling_ends
    {
        if self.full() {
            (Fill::Ready, self)
        } else if !self.play.can_play() {
            (Fill::Underrun, self)
        } else if self.starts_over() && !Self::can_start(self.play.next_block()) {
            (Fill::Broken, WindowView { play: self.play.played(), ..self })
        } else {
            self.pulled().filled()
        }
    }

    #[via_fn]
    proof fn filling_ends(self) {
        playing_uses_up_the_reserve(self.play);
    }

    /// On the way to a full window, a block of another width than the window's
    /// is met.
    pub open spec fn rebuilds(self) -> bool
        decreases self.play.reserve(),
        when self.play.valid()
        via Self::rebuilding_ends
    {
        if self.full() || !self.play.can_play() {
            false
        } else if self.channels > 0 && self.starts_over() {
            true
        } else if self.starts_over() && !Self::can_start(self.play.next_block()) {
            false
        } else {
            self.pulled().rebuilds()
        }
    }

    #[via_fn]
    proof fn rebuilding_ends(self) {
        playing_uses_up_the_reserve(self.play);
    }
}

/// The state of the delay-locked loop that steers the ratio, as 64-bit patterns.
#[derive(Clone, Copy, PartialEq, Eq, Structural, Debug)]
pub struct Dll {
    /// Resample step: input frames consumed per output frame.
    pub ratio: u64,
    /// Integrator: converges to the true sender/receiver rate ratio.
    pub integ: u64,
    /// Smoothed fill error: the loop acts on this, not the raw signal.
    pub err_filt: u64,
}

/// The pattern of the number one.
pub const UNITY: u64 = 0x3FF0_0000_0000_0000;

/// The loop before anything has been measured: a ratio of one.
pub open spec fn loop_at_rest() -> Dll {
    Dll { ratio: UNITY, integ: 0, err_filt: 0 }
}

/// The four input frames around the read position, for one channel.
pub type Taps = (u32, u32, u32, u32);

/// What came of producing a block.
pub enum Produced {
    /// A block, and its channel count.
    Block(Vec<u32>, u8),
    /// Not primed yet, or an underrun: let the ring drain.
    Dry,
    /// Input was met that cannot be rendered: a block without a whole frame to
    /// start with; or the read position moved past the input.
    Broken,
}

/// What a [`Produced`] holds.
pub enum ProducedView {
    Block(Seq<u32>, u8),
    Dry,
    Broken,
}

impl View for Produced {
    type V = ProducedView;

    open spec fn view(&self) -> ProducedView {
        match self {
            Produced::Block(block, channels) => ProducedView::Block(block@, *channels),
            Produced::Dry => ProducedView::Dry,
            Produced::Broken => ProducedView::Broken,
        }
    }
}

/// A [`Playout`] plus continuous sample-rate adaptation.
pub struct Resampler {
    play: Playout,
    fifo: Vec<u32>,
    channels: usize,
    phase: u64,
    dll: Dll,
    frames_per_packet: usize,
    set_point: usize,
    was_primed: bool,
}

/// What a [`Resampler`] holds.
pub struct ResamplerView {
    pub window: WindowView,
    /// The pattern of the fractional read position past the window's second
    /// frame.
    pub phase: u64,
    pub dll: Dll,
    /// Output frames produced per block, and input frames per packet.
    pub frames_per_packet: nat,
    /// Target buffered depth in frames (the prime cushion).
    pub set_point: nat,
    /// The playout was primed when the last block began, and has not lost its
    /// place since.
    pub was_primed: bool,
}

/// The taps of channel `c` in a window of `ch` channels.
pub open spec fn taps_at(fifo: Seq<u32>, ch: int, c: int) -> Taps {
    (fifo[c], fifo[ch + c], fifo[2 * ch + c], fifo[3 * ch + c])
}

/// What is read from, and how far into it.
pub struct ReadPoint {
    pub window: WindowView,
    pub phase: u64,
}

impl ReadPoint {
    /// The read point once the window has been filled: one that was rebuilt
    /// starts at its first frame.
    pub open spec fn filled(self) -> ReadPoint {
        ReadPoint {
            window: self.window.filled().1,
            phase: if self.window.rebuilds() {
                0
            } else {
                self.phase
            },
        }
    }

    /// An output frame of `ch` channels can be read here.
    pub open spec fn readable(self, ch: int) -> bool {
        self.window.filled().0 is Ready && self.window.filled().1.channels == ch
    }

    /// An output frame can be read here, but not of `ch` channels: the peer has
    /// changed its width.
    pub open spec fn turns(self, ch: int) -> bool {
        self.window.filled().0 is Ready && self.window.filled().1.channels != ch
    }

    /// The read point once `n` input frames of `ch` channels have been passed.
    pub open spec fn passed(self, n: int, ch: int, phase: u64) -> ReadPoint {
        ReadPoint {
            window: WindowView { fifo: self.window.fifo.skip(n * ch), ..self.window },
            phase,
        }
    }
}

/// `frame` is the output frame at `point`: each channel is what the kernel makes
/// of that channel's taps at the fractional read position. Then the position
/// moves on by the ratio, and whole input frames that it has passed are
/// consumed.
pub open spec fn frame_made<K: Fn(Taps, u64) -> u32, A: Fn(u64, u64) -> (u64, usize)>(
    kernel: K,
    advance: A,
    ratio: u64,
    ch: int,
    point: ReadPoint,
    frame: Seq<u32>,
    after: ReadPoint,
) -> bool {
    let at = point.filled();
    &&& point.readable(ch)
    &&& frame.len() == ch
    &&& forall|c: int|
        0 <= c < ch ==> call_ensures(
            kernel,
            (taps_at(at.window.fifo, ch, c), at.phase),
            #[trigger] frame[c],
        )
    &&& exists|phase: u64, n: usize|
        {
            &&& #[trigger] call_ensures(advance, (at.phase, ratio), (phase, n))
            &&& n * ch <= at.window.fifo.len()
            &&& after == at.passed(n as int, ch, phase)
        }
}

/// `frames` are output frames, made one after the other at `points`.
pub open spec fn frames_made<K: Fn(Taps, u64) -> u32, A: Fn(u64, u64) -> (u64, usize)>(
    kernel: K,
    advance: A,
    ratio: u64,
    ch: int,
    points: Seq<ReadPoint>,
    frames: Seq<Seq<u32>>,
) -> bool {
    &&& points.len() == frames.len() + 1
    &&& forall|i: int|
        0 <= i < frames.len() ==> frame_made(
            kernel,
            advance,
            ratio,
            ch,
            #[trigger] points[i],
            frames[i],
            points[i + 1],
        )
}

/// A block of `frames_per_packet` frames that was begun at `from` has been given
/// up before it was whole, as the peer has changed its width, and is begun again
/// at `to`. Up to there `frames` were made at `points`.
pub open spec fn giving_up<K: Fn(Taps, u64) -> u32, A: Fn(u64, u64) -> (u64, usize)>(
    kernel: K,
    advance: A,
    ratio: u64,
    frames_per_packet: nat,
    from: ReadPoint,
    to: ReadPoint,
    points: Seq<ReadPoint>,
    frames: Seq<Seq<u32>>,
) -> bool {
    let ch = from.window.channels as int;
    &&& frames_made(kernel, advance, ratio, ch, points, frames)
    &&& points[0] == from
    &&& frames.len() < frames_per_packet
    &&& points.last().turns(ch)
    &&& to == points.last().filled()
}

/// A block that was begun at `from` has been given up and is begun again at `to`.
pub open spec fn begun_again<K: Fn(Taps, u64) -> u32, A: Fn(u64, u64) -> (u64, usize)>(
    kernel: K,
    advance: A,
    ratio: u64,
    frames_per_packet: nat,
    from: ReadPoint,
    to: ReadPoint,
) -> bool {
    exists|points: Seq<ReadPoint>, frames: Seq<Seq<u32>>| #[trigger]
        giving_up(kernel, advance, ratio, frames_per_packet, from, to, points, frames)
}

/// A block is begun at the first of `starts`, and again at each of the others.
pub open spec fn beginnings<K: Fn(Taps, u64) -> u32, A: Fn(u64, u64) -> (u64, usize)>(
    kernel: K,
    advance: A,
    ratio: u64,
    frames_per_packet: nat,
    starts: Seq<ReadPoint>,
) -> bool {
    &&& starts.len() > 0
    &&& forall|i: int|
        0 <= i < starts.len() - 1 ==> begun_again(
            kernel,
            advance,
            ratio,
            frames_per_packet,
            #[trigger] starts[i],
            starts[i + 1],
        )
}

/// No output frame can be made at `point`, for want of input where `dry`, and
/// for what stands there otherwise: it cannot be read, or the position moves
/// past its end. `after` is where the attempt leads.
pub open spec fn frame_fails<A: Fn(u64, u64) -> (u64, usize)>(
    advance: A,
    ratio: u64,
    ch: int,
    point: ReadPoint,
    dry: bool,
    after: ReadPoint,
) -> bool {
    let at = point.filled();
    if dry {
        point.window.filled().0 is Underrun && after == at
    } else {
        ||| point.window.filled().0 is Broken && after == at
        ||| point.readable(ch) && exists|phase: u64, n: usize|
            {
                &&& #[trigger] call_ensures(advance, (at.phase, ratio), (phase, n))
                &&& n * ch > at.window.fifo.len()
                &&& after == (ReadPoint { phase, ..at })
            }
    }
}

/// The run of a block that was begun at `from`, with `r` as its outcome and `to`
/// as the read point that it led to. It was begun anew at each of `starts`, and
/// from the last of these on `frames` were made at `points`, all of one width.
pub open spec fn rendering<K: Fn(Taps, u64) -> u32, A: Fn(u64, u64) -> (u64, usize)>(
    kernel: K,
    advance: A,
    ratio: u64,
    frames_per_packet: nat,
    from: ReadPoint,
    r: ProducedView,
    to: ReadPoint,
    starts: Seq<ReadPoint>,
    points: Seq<ReadPoint>,
    frames: Seq<Seq<u32>>,
) -> bool {
    let ch = starts.last().window.channels;
    &&& beginnings(kernel, advance, ratio, frames_per_packet, starts)
    &&& starts[0] == from
    &&& frames_made(kernel, advance, ratio, ch as int, points, frames)
    &&& points[0] == starts.last()
    &&& match r {
        ProducedView::Block(block, channels) => {
            &&& frames.len() == frames_per_packet
            &&& block == frames.flatten()
            &&& channels == ch
            &&& to == points.last()
        },
        _ => {
            &&& frames.len() < frames_per_packet
            &&& frame_fails(advance, ratio, ch as int, points.last(), r is Dry, to)
        },
    }
}

/// A block that was begun at `from` has had `r` as its outcome, and has led to the
/// read point `to`.
pub open spec fn rendered<K: Fn(Taps, u64) -> u32, A: Fn(u64, u64) -> (u64, usize)>(
    kernel: K,
    advance: A,
    ratio: u64,
    frames_per_packet: nat,
    from: ReadPoint,
    r: ProducedView,
    to: ReadPoint,
) -> bool {
    exists|starts: Seq<ReadPoint>, points: Seq<ReadPoint>, frames: Seq<Seq<u32>>|
        #![trigger beginnings(kernel, advance, ratio, frames_per_packet, starts),
            frames_made(
                kernel,
                advance,
                ratio,
                starts.last().window.channels as int,
                points,
                frames,
            )]
        rendering(
            kernel,
            advance,
            ratio,
            frames_per_packet,
            from,
            r,
            to,
            starts,
            points,
            frames,
        )
}

impl ResamplerView {
    pub open spec fn point(self) -> ReadPoint {
        ReadPoint { window: self.window, phase: self.phase }
    }

    /// The resampler once a packet has arrived.
    pub open spec fn inserted(self, p: PacketView) -> ResamplerView {
        ResamplerView {
            window: WindowView { play: self.window.play.inserted(p), ..self.window },
            was_primed: self.was_primed && !self.window.play.jitter.is_desync(p.seq),
            ..self
        }
    }

    /// The resampler at another read point.
    pub open spec fn moved(self, point: ReadPoint) -> ResamplerView {
        ResamplerView { window: point.window, phase: point.phase, ..self }
    }

    /// The resampler as a block begins: on each (re)prime (first prime or a
    /// post-resync re-anchor) it starts clean, so that a stale ratio can't
    /// mis-pitch the fresh buffer.
    pub open spec fn begun(self) -> ResamplerView {
        let primed = self.window.play.jitter.primed;
        if primed && !self.was_primed {
            ResamplerView {
                window: WindowView { fifo: Seq::empty(), channels: 0, ..self.window },
                phase: 0,
                dll: loop_at_rest(),
                was_primed: true,
                ..self
            }
        } else {
            ResamplerView { was_primed: primed, ..self }
        }
    }

    /// Buffered input frames: those in packets and those in the window. Less the
    /// fractional read position, this is the signal that the ratio is steered by.
    pub open spec fn buffered_frames(self) -> nat {
        self.window.play.jitter.filled() * self.frames_per_packet + self.window.fifo.len()
            / self.window.channels
    }
}

/// A resampler that held `v` has come up with `r` and holds `after` then.
///
/// A block is made of frames of one width, all of them read one after the other;
/// where the peer changes its width before the block is whole, it is begun again
/// at the new width. The loop is steered once per block that comes out, by what
/// was buffered as the first frame was due, and left alone otherwise.
pub open spec fn produced<
    K: Fn(Taps, u64) -> u32,
    A: Fn(u64, u64) -> (u64, usize),
    S: Fn(Dll, u128, u64, usize) -> Dll,
>(kernel: K, advance: A, steer: S, v: ResamplerView, r: ProducedView, after: ResamplerView) -> bool {
    let b = v.begun();
    let filled = b.point().filled();
    let ratio = b.dll.ratio;
    if !b.was_primed {
        r is Dry && after == b
    } else if b.window.filled().0 is Underrun {
        r is Dry && after == b.moved(filled)
    } else if b.window.filled().0 is Broken {
        r is Broken && after == b.moved(filled)
    } else {
        &&& rendered(kernel, advance, ratio, b.frames_per_packet, filled, r, after.point())
        &&& after == (ResamplerView { dll: after.dll, ..b.moved(after.point()) })
        &&& if r is Block {
            call_ensures(
                steer,
                (
                    b.dll,
                    b.moved(filled).buffered_frames() as u128,
                    filled.phase,
                    b.set_point as usize,
                ),
                after.dll,
            )
        } else {
            after.dll == b.dll
        }
    }
}

impl Resampler {
    pub closed spec fn view(&self) -> ResamplerView {
        ResamplerView {
            window: WindowView {
                play: self.play.view(),
                fifo: self.fifo@,
                channels: self.channels as nat,
            },
            phase: self.phase,
            dll: self.dll,
            frames_per_packet: self.frames_per_packet as nat,
            set_point: self.set_point as nat,
            was_primed: self.was_primed,
        }
    }

    pub closed spec fn wf(&self) -> bool {
        &&& self.play.wf()
        &&& self.channels <= 255
        &&& self.frames_per_packet <= 255
    }

    /// A resampler over an empty playout.
    pub fn new(prime: usize, frames_per_packet: u8) -> (r: Resampler)
        requires
            prime * frames_per_packet <= usize::MAX,
        ensures
            r.wf(),
            r.view() == (ResamplerView {
                window: WindowView {
                    play: PlayoutView::fresh(prime as nat),
                    fifo: Seq::empty(),
                    channels: 0,
                },
                phase: 0,
                dll: loop_at_rest(),
                frames_per_packet: frames_per_packet as nat,
                set_point: prime as nat * frames_per_packet as nat,
                was_primed: false,
            }),
    {
        Resampler {
            play: Playout::new(prime),
            fifo: Vec::new(),
            channels: 0,
            phase: 0,
            dll: Dll { ratio: UNITY, integ: 0, err_filt: 0 },
            frames_per_packet: frames_per_packet as usize,
            set_point: prime * frames_per_packet as usize,
            was_primed: false,
        }
    }

    /// Takes in a decoded packet. One at which the jitter buffer starts over makes
    /// the resampler start clean too, once the playout has primed again.
    pub fn insert(&mut self, pkt: AudioPacket) -> (r: Ingest)
        requires
            old(self).wf(),
        ensures
            final(self).wf(),
            final(self).view() == old(self).view().inserted(pkt@),
            r.resynced == old(self).view().window.play.jitter.is_desync(pkt.seq),
            r.newly_primed == (!old(self).view().window.play.jitter.primed
                && final(self).view().window.play.jitter.primed),
    {
        let r = self.play.insert(pkt);
        if r.resynced {
            self.was_primed = false;
        }
        r
    }

    /// Produces one block of `frames_per_packet` frames at the local rate, or
    /// nothing on underrun and before the playout is primed, so that it can stand
    /// in for [`Playout::next_block`]. The loop is steered once per block that
    /// comes out, and left alone otherwise.
    ///
    /// What computes with sample values and rates is handed in: `kernel` makes
    /// an output sample of four input samples and the fractional read position;
    /// `advance` moves that position on by the ratio, and says how many whole
    /// input frames it has passed; `steer` gives the next state of the loop for
    /// the buffered frames, the fractional position that is to be taken off
    /// them, and the target depth.
    pub fn produce_block<
        K: Fn(Taps, u64) -> u32,
        A: Fn(u64, u64) -> (u64, usize),
        S: Fn(Dll, u128, u64, usize) -> Dll,
    >(&mut self, kernel: &K, advance: &A, steer: &S) -> (r: Produced)
        requires
            old(self).wf(),
            forall|t: Taps, p: u64| #[trigger] call_requires(*kernel, (t, p)),
            forall|p: u64, q: u64| #[trigger] call_requires(*advance, (p, q)),
            forall|d: Dll, n: u128, p: u64, s: usize| #[trigger]
                call_requires(*steer, (d, n, p, s)),
        ensures
            final(self).wf(),
            produced(*kernel, *advance, *steer, old(self).view(), r@, final(self).view()),
            r matches Produced::Block(block, channels) ==> block@.len()
                == old(self).view().frames_per_packet * channels,
    {
        let primed: bool = self.play.primed();
        if primed && !self.was_primed {
            self.fifo.clear();
            self.channels = 0;
            self.phase = 0;
            self.dll = Dll { ratio: UNITY, integ: 0, err_filt: 0 };
        }
        self.was_primed = primed;
        let ghost b = self.view();
        assert(b.window.fifo =~= old(self).view().begun().window.fifo);
        assert(b == old(self).view().begun());
        if !primed {
            return Produced::Dry;
        }
        match self.ensure_window() {
            Fill::Ready => {},
            Fill::Underrun => {
                return Produced::Dry;
            },
            Fill::Broken => {
                return Produced::Broken;
            },
        }
        let ghost filled = self.view();
        let buffered: u128 = self.buffered_frames();
        let measured: u64 = self.phase;
        let r = self.render_block(kernel, advance);
        if let Produced::Block(_, _) = &r {
            self.dll = (*steer)(self.dll, buffered, measured, self.set_point);
        }
        r
    }

    /// Ensures the window holds at least four input frames around the read
    /// position, pulling fresh blocks from the playout. A peer that changes its
    /// width (reconfiguration or restart) has the window rebuilt.
    fn ensure_window(&mut self) -> (r: Fill)
        requires
            old(self).wf(),
        ensures
            final(self).wf(),
            r == old(self).view().window.filled().0,
            r is Ready ==> final(self).view().window.full(),
            final(self).view() == old(self).view().moved(old(self).view().point().filled()),
            final(self).view().window.play.reserve() <= old(self).view().window.play.reserve(),
            final(self).view().window.channels == old(self).view().window.channels
                || final(self).view().window.play.reserve()
                < old(self).view().window.play.reserve(),
    {
        loop
            invariant
                self.wf(),
                self.view().window.play.reserve() <= old(self).view().window.play.reserve(),
                self.channels == old(self).channels || self.view().window.play.reserve()
                    < old(self).view().window.play.reserve(),
                old(self).view().window.filled() == self.view().window.filled(),
                old(self).view().point().filled() == self.view().point().filled(),
                self.view() == old(self).view().moved(self.view().point()),
            decreases self.view().window.play.reserve(),
        {
            proof {
                self.play.wf_is_valid();
            }
            if self.channels > 0 && self.fifo.len() / self.channels >= KERNEL_FRAMES {
                return Fill::Ready;
            }
            let ghost before = self.view().window;
            match self.play.next_block() {
                None => {
                    return Fill::Underrun;
                },
                Some((s, ch)) => {
                    proof {
                        self.play.wf_is_valid();
                    }
                    let width: usize = ch as usize;
                    if width != self.channels {
                        if self.channels > 0 {
                            self.phase = 0;
                        }
                        if width == 0 || s.len() < width {
                            return Fill::Broken;
                        }
                        self.channels = width;
                        let mut seeded: Vec<u32> = Vec::new();
                        let mut i: usize = 0;
                        while i < width
                            invariant
                                i <= width <= s@.len(),
                                seeded@ =~= s@.take(i as int),
                            decreases width - i,
                        {
                            seeded.push(s[i]);
                            i = i + 1;
                        }
                        let mut s = s;
                        seeded.append(&mut s);
                        self.fifo = seeded;
                    } else if width == 0 {
                        return Fill::Broken;
                    } else {
                        let mut s = s;
                        self.fifo.append(&mut s);
                    }
                    proof {
                        assert(self.view().window.fifo =~= before.pulled().fifo);
                        assert(self.view().window == before.pulled());
                    }
                },
            }
        }
    }

    /// Buffered input frames ahead of the read position, whole ones.
    fn buffered_frames(&self) -> (n: u128)
        requires
            self.wf(),
            self.view().window.full(),
        ensures
            n == self.view().buffered_frames(),
    {
        let packets: usize = self.play.buffered_packets();
        let in_window: usize = self.fifo.len() / self.channels;
        proof {
            self.play.wf_is_valid();
            filled_bound(self.view().window.play.jitter);
            assert(0 <= packets * self.frames_per_packet <= 256 * 255) by (nonlinear_arith)
                requires
                    0 <= packets <= 256,
                    0 <= self.frames_per_packet <= 255,
            ;
        }
        (packets * self.frames_per_packet) as u128 + in_window as u128
    }

    /// Interpolates the output frames of a block, advancing the read position by
    /// the ratio per frame and consuming input as it crosses frame boundaries. A
    /// peer that changes its width in the middle has the block begun again.
    fn render_block<K: Fn(Taps, u64) -> u32, A: Fn(u64, u64) -> (u64, usize)>(
        &mut self,
        kernel: &K,
        advance: &A,
    ) -> (r: Produced)
        requires
            old(self).wf(),
            old(self).view().window.channels > 0,
            forall|t: Taps, p: u64| #[trigger] call_requires(*kernel, (t, p)),
            forall|p: u64, q: u64| #[trigger] call_requires(*advance, (p, q)),
        ensures
            final(self).wf(),
            final(self).view() == old(self).view().moved(final(self).view().point()),
            r matches Produced::Block(block, channels) ==> block@.len()
                == old(self).view().frames_per_packet * channels,
            rendered(
                *kernel,
                *advance,
                old(self).view().dll.ratio,
                old(self).view().frames_per_packet,
                old(self).view().point(),
                r@,
                final(self).view().point(),
            ),
    {
        let ghost v = self.view();
        let mut ch: usize = self.channels;
        let ratio: u64 = self.dll.ratio;
        let ghost mut starts: Seq<ReadPoint> = seq![v.point()];
        let ghost mut points: Seq<ReadPoint> = seq![v.point()];
        let ghost mut frames: Seq<Seq<u32>> = Seq::empty();
        let mut out: Vec<u32> = Vec::new();
        let mut made: usize = 0;
        assert(out@ =~= frames.flatten());
        assert(0 * ch == 0);
        while made < self.frames_per_packet
            invariant
                made <= self.frames_per_packet,
                self.wf(),
                v == old(self).view(),
                0 < ch <= 255,
                ch == self.channels,
                ratio == v.dll.ratio,
                self.view() == v.moved(self.view().point()),
                beginnings(*kernel, *advance, ratio, v.frames_per_packet, starts),
                starts[0] == v.point(),
                starts.last().window.channels == ch,
                frames.len() == made,
                frames_made(*kernel, *advance, ratio, ch as int, points, frames),
                points[0] == starts.last(),
                points.last() == self.view().point(),
                out@ == frames.flatten(),
                out@.len() == made * ch,
                forall|t: Taps, p: u64| #[trigger] call_requires(*kernel, (t, p)),
                forall|p: u64, q: u64| #[trigger] call_requires(*advance, (p, q)),
            decreases self.view().window.play.reserve(), self.frames_per_packet - made,
        {
            let ghost point = self.view().point();
            match self.ensure_window() {
                Fill::Ready => {},
                Fill::Underrun => {
                    return Produced::Dry;
                },
                Fill::Broken => {
                    return Produced::Broken;
                },
            }
            let ghost at = self.view().point();
            if self.channels != ch {
                proof {
                    assert(giving_up(
                        *kernel,
                        *advance,
                        ratio,
                        v.frames_per_packet,
                        starts.last(),
                        at,
                        points,
                        frames,
                    ));
                    let next_starts = starts.push(at);
                    assert forall|i: int| 0 <= i < next_starts.len() - 1 implies begun_again(
                        *kernel,
                        *advance,
                        ratio,
                        v.frames_per_packet,
                        #[trigger] next_starts[i],
                        next_starts[i + 1],
                    ) by {
                        if i < starts.len() - 1 {
                            assert(next_starts[i] == starts[i]);
                            assert(next_starts[i + 1] == starts[i + 1]);
                        }
                    }
                    starts = next_starts;
                    points = seq![at];
                    frames = Seq::empty();
                }
                ch = self.channels;
                out = Vec::new();
                made = 0;
                assert(out@ =~= frames.flatten());
                assert(0 * ch == 0);
                continue;
            }
            proof {
                full_window_has_taps(self.view().window);
            }
            let t: u64 = self.phase;
            let ghost before = out@;
            let ghost mut frame: Seq<u32> = Seq::empty();
            assert(before + frame =~= before);
            let mut c: usize = 0;
            while c < ch
                invariant
                    c <= ch <= 255,
                    4 * ch <= self.fifo@.len(),
                    self.fifo@ == at.window.fifo,
                    t == at.phase,
                    frame.len() == c,
                    out@ == before + frame,
                    forall|k: int|
                        0 <= k < c ==> call_ensures(
                            *kernel,
                            (taps_at(at.window.fifo, ch as int, k), t),
                            #[trigger] frame[k],
                        ),
                    forall|t: Taps, p: u64| #[trigger] call_requires(*kernel, (t, p)),
                decreases ch - c,
            {
                let taps: Taps = (
                    self.fifo[c],
                    self.fifo[ch + c],
                    self.fifo[2 * ch + c],
                    self.fifo[3 * ch + c],
                );
                let sample: u32 = (*kernel)(taps, t);
                out.push(sample);
                proof {
                    frame = frame.push(sample);
                    assert(out@ =~= before + frame);
                }
                c = c + 1;
            }
            let (next_phase, passed) = (*advance)(t, ratio);
            self.phase = next_phase;
            proof {
                passing_bound(passed as int, ch as int, self.fifo@.len() as int);
            }
            if passed > self.fifo.len() / ch {
                return Produced::Broken;
            }
            if passed > 0 {
                let rest = self.fifo.split_off(passed * ch);
                self.fifo = rest;
            }
            proof {
                let after = self.view().point();
                assert(0 * ch == 0);
                assert(after.window.fifo =~= at.window.fifo.skip(passed * ch));
                assert(after == at.passed(passed as int, ch as int, next_phase));
                assert(frame_made(*kernel, *advance, ratio, ch as int, point, frame, after));
                let next_points = points.push(after);
                let next_frames = frames.push(frame);
                assert forall|i: int| 0 <= i < next_frames.len() implies frame_made(
                    *kernel,
                    *advance,
                    ratio,
                    ch as int,
                    #[trigger] next_points[i],
                    next_frames[i],
                    next_points[i + 1],
                ) by {
                    if i < frames.len() {
                        assert(next_points[i] == points[i]);
                        assert(next_points[i + 1] == points[i + 1]);
                    }
                }
                frames.lemma_flatten_push(frame);
                points = next_points;
                frames = next_frames;
                assert((made + 1) * ch == made * ch + ch) by (nonlinear_arith);
            }
            made = made + 1;
        }
        Produced::Block(out, ch as u8)
    }

    /// The pattern of the ratio that the loop has settled on.
    pub fn ratio(&self) -> (r: u64)
        ensures
            r == self.view().dll.ratio,
    {
        self.dll.ratio
    }

    /// Packets held in the jitter buffer.
    pub fn buffered_packets(&self) -> (n: usize)
        requires
            self.wf(),
        ensures
            n == self.view().window.play.jitter.filled(),
    {
        self.play.buffered_packets()
    }
}

/// So many frames are there exactly where their samples are.
proof fn passing_bound(n: int, ch: int, len: int)
    requires
        0 < ch,
        0 <= n,
        0 <= len,
    ensures
        n <= len / ch <==> n * ch <= len,
        0 <= n * ch,
{
    vstd::arithmetic::div_mod::lemma_fundamental_div_mod(len, ch);
    let q = len / ch;
    if n <= q {
        assert(n * ch <= ch * q) by (nonlinear_arith)
            requires
                n <= q,
                0 < ch,
        ;
    } else {
        assert(n * ch >= ch * q + ch) by (nonlinear_arith)
            requires
                n >= q + 1,
                0 < ch,
        ;
    }
    assert(0 <= n * ch) by (nonlinear_arith)
        requires
            0 <= n,
            0 < ch,
    ;
}

/// The resampler after a run of arrivals.
pub open spec fn after_inserts(v: ResamplerView, packets: Seq<PacketView>) -> ResamplerView
    decreases packets.len(),
{
    if packets.len() == 0 {
        v
    } else {
        after_inserts(v, packets.drop_last()).inserted(packets.last())
    }
}

/// When a stream has lost its place, the first block after it has primed again
/// starts clean, whatever arrives in between: with nothing of what was read
/// before, at the first frame, and at a ratio of one.
pub proof fn resync_starts_clean(v: ResamplerView, p: PacketView, packets: Seq<PacketView>)
    requires
        v.window.play.jitter.is_desync(p.seq),
        after_inserts(v.inserted(p), packets).window.play.jitter.primed,
    ensures
        ({
            let b = after_inserts(v.inserted(p), packets).begun();
            &&& b.was_primed
            &&& b.window.fifo.len() == 0
            &&& b.window.channels == 0
            &&& b.phase == 0
            &&& b.dll == loop_at_rest()
        }),
{
    inserts_keep_unprimed(v.inserted(p), packets);
}

proof fn inserts_keep_unprimed(v: ResamplerView, packets: Seq<PacketView>)
    requires
        !v.was_primed,
    ensures
        !after_inserts(v, packets).was_primed,
    decreases packets.len(),
{
    if packets.len() > 0 {
        inserts_keep_unprimed(v, packets.drop_last());
    }
}

/// A window that has been filled holds every frame that the kernel reads, in
/// each of its channels.
pub proof fn full_window_has_taps(w: WindowView)
    requires
        w.full(),
    ensures
        4 * w.channels <= w.fifo.len(),
{
    let frames = w.fifo.len() / w.channels;
    vstd::arithmetic::div_mod::lemma_fundamental_div_mod(
        w.fifo.len() as int,
        w.channels as int,
    );
    assert(w.channels * frames >= w.channels * 4) by (nonlinear_arith)
        requires
            frames >= 4,
    ;
}

/// Filling that ends well ends with a full window.
proof fn ready_is_full(w: WindowView)
    requires
        w.play.valid(),
    ensures
        w.filled().0 is Ready ==> w.filled().1.full(),
    decreases w.play.reserve(),
{
    playing_uses_up_the_reserve(w.play);
    if !w.full() && w.play.can_play() && (w.starts_over() ==> WindowView::can_start(
        w.play.next_block(),
    )) {
        played_is_valid(w.play);
        ready_is_full(w.pulled());
    }
}

/// Filling a window that keeps its width never loses or reorders input: what
/// was in the window stays in front, and whole blocks follow it.
pub proof fn filling_keeps_the_stream(w: WindowView)
    requires
        w.play.valid(),
        w.channels > 0,
        !w.rebuilds(),
    ensures
        w.fifo.is_prefix_of(w.filled().1.fifo),
        w.filled().1.channels == w.channels,
    decreases w.play.reserve(),
{
    playing_uses_up_the_reserve(w.play);
    if !w.full() && w.play.can_play() {
        played_is_valid(w.play);
        filling_keeps_the_stream(w.pulled());
    }
}

/// A playout that is starved cannot keep a window full: filling ends in an
/// underrun as soon as the blocks held are used up.
pub proof fn starved_window_underruns(w: WindowView)
    requires
        w.play.valid(),
        w.play.reserve() == 0,
        !w.full(),
    ensures
        w.filled() == (Fill::Underrun, w),
{
    playing_uses_up_the_reserve(w.play);
}

/// All samples are `x`.
pub open spec fn all_at(samples: Seq<u32>, x: u32) -> bool {
    forall|i: int| 0 <= i < samples.len() ==> #[trigger] samples[i] == x
}

/// Everything that waits to be read is at the level `x`, and nothing in between
/// is missing.
pub open spec fn level(w: WindowView, x: u32) -> bool {
    &&& all_at(w.fifo, x)
    &&& forall|k: int|
        0 <= k < w.play.jitter.window.len() ==> match #[trigger] w.play.jitter.window[k] {
            Some(b) => all_at(b.0, x),
            None => k >= w.play.reserve(),
        }
}

proof fn playing_keeps_level(w: WindowView, x: u32)
    requires
        w.play.valid(),
        w.play.can_play(),
        level(w, x),
    ensures
        all_at(w.play.next_block().0, x),
        level((WindowView { play: w.play.played(), ..w }), x),
{
    playing_uses_up_the_reserve(w.play);
    let window = w.play.jitter.window;
    let next = w.play.played().jitter.window;
    assert(window[0] is Some);
    assert forall|k: int| 0 <= k < next.len() implies match #[trigger] next[k] {
        Some(b) => all_at(b.0, x),
        None => k >= w.play.played().reserve(),
    } by {
        if k < window.len() - 1 {
            assert(next[k] == window[k + 1]);
        }
    }
}

proof fn pulling_keeps_level(w: WindowView, x: u32)
    requires
        w.play.valid(),
        w.play.can_play(),
        level(w, x),
        w.starts_over() ==> WindowView::can_start(w.play.next_block()),
    ensures
        level(w.pulled(), x),
{
    playing_keeps_level(w, x);
    let b = w.play.next_block();
    let fifo = w.pulled().fifo;
    assert forall|i: int| 0 <= i < fifo.len() implies #[trigger] fifo[i] == x by {
        if w.starts_over() {
            if i < b.1 {
                assert(fifo[i] == b.0[i]);
            } else {
                assert(fifo[i] == b.0[i - b.1]);
            }
        } else if i >= w.fifo.len() {
            assert(fifo[i] == b.0[i - w.fifo.len()]);
        }
    }
}

proof fn filling_keeps_level(w: WindowView, x: u32)
    requires
        w.play.valid(),
        level(w, x),
    ensures
        level(w.filled().1, x),
        w.filled().1.play.valid(),
    decreases w.play.reserve(),
{
    playing_uses_up_the_reserve(w.play);
    if !w.full() && w.play.can_play() {
        played_is_valid(w.play);
        if w.starts_over() ==> WindowView::can_start(w.play.next_block()) {
            pulling_keeps_level(w, x);
            filling_keeps_level(w.pulled(), x);
        } else {
            playing_keeps_level(w, x);
        }
    }
}

/// `phases` holds of the read position that a window starts at, and of every one
/// that `advance` leads to at this ratio from one of which it holds.
pub open spec fn closed_under<A: Fn(u64, u64) -> (u64, usize)>(
    advance: A,
    ratio: u64,
    phases: spec_fn(u64) -> bool,
) -> bool {
    &&& phases(0)
    &&& forall|p: u64, q: u64, n: usize| #[trigger]
        call_ensures(advance, (p, ratio), (q, n)) && phases(p) ==> phases(q)
}

/// `y` is what the kernel makes of four samples `x`, at one of `phases`.
pub open spec fn made_of_level<K: Fn(Taps, u64) -> u32>(
    kernel: K,
    phases: spec_fn(u64) -> bool,
    x: u32,
    y: u32,
) -> bool {
    exists|p: u64| #[trigger] call_ensures(kernel, ((x, x, x, x), p), y) && phases(p)
}

/// Every sample is what the kernel makes of four samples `x`.
pub open spec fn all_of_level<K: Fn(Taps, u64) -> u32>(
    kernel: K,
    phases: spec_fn(u64) -> bool,
    x: u32,
    samples: Seq<u32>,
) -> bool {
    forall|i: int|
        0 <= i < samples.len() ==> made_of_level(kernel, phases, x, #[trigger] samples[i])
}

proof fn frames_keep_level<K: Fn(Taps, u64) -> u32, A: Fn(u64, u64) -> (u64, usize)>(
    kernel: K,
    advance: A,
    ratio: u64,
    ch: int,
    points: Seq<ReadPoint>,
    frames: Seq<Seq<u32>>,
    phases: spec_fn(u64) -> bool,
    x: u32,
    n: int,
)
    requires
        frames_made(kernel, advance, ratio, ch, points, frames),
        closed_under(advance, ratio, phases),
        phases(points[0].phase),
        points[0].window.play.valid(),
        level(points[0].window, x),
        0 <= n <= frames.len(),
    ensures
        phases(points[n].phase),
        points[n].window.play.valid(),
        level(points[n].window, x),
        forall|i: int| 0 <= i < n ==> all_of_level(kernel, phases, x, #[trigger] frames[i]),
    decreases n,
{
    if n > 0 {
        frames_keep_level(kernel, advance, ratio, ch, points, frames, phases, x, n - 1);
        let point = points[n - 1];
        let frame = frames[n - 1];
        assert(frame_made(kernel, advance, ratio, ch, point, frame, points[n - 1 + 1]));
        let at = point.filled();
        filling_keeps_level(point.window, x);
        ready_is_full(point.window);
        full_window_has_taps(at.window);
        assert forall|c: int| 0 <= c < frame.len() implies made_of_level(
            kernel,
            phases,
            x,
            #[trigger] frame[c],
        ) by {
            let fifo = at.window.fifo;
            assert(fifo[c] == x && fifo[ch + c] == x && fifo[2 * ch + c] == x && fifo[3 * ch + c]
                == x);
            assert(taps_at(fifo, ch, c) == (x, x, x, x));
            assert(call_ensures(kernel, (taps_at(fifo, ch, c), at.phase), frame[c]));
        }
        let (phase, k) = choose|phase: u64, k: usize|
            {
                &&& #[trigger] call_ensures(advance, (at.phase, ratio), (phase, k))
                &&& k * ch <= at.window.fifo.len()
                &&& points[n] == at.passed(k as int, ch, phase)
            };
        assert(0 <= k * ch) by (nonlinear_arith)
            requires
                0 <= k,
                0 <= ch,
        ;
        let rest = points[n].window.fifo;
        assert forall|i: int| 0 <= i < rest.len() implies #[trigger] rest[i] == x by {
            assert(rest[i] == at.window.fifo[i + k * ch]);
        }
    }
}

proof fn beginnings_keep_level<K: Fn(Taps, u64) -> u32, A: Fn(u64, u64) -> (u64, usize)>(
    kernel: K,
    advance: A,
    ratio: u64,
    frames_per_packet: nat,
    starts: Seq<ReadPoint>,
    phases: spec_fn(u64) -> bool,
    x: u32,
    n: int,
)
    requires
        beginnings(kernel, advance, ratio, frames_per_packet, starts),
        closed_under(advance, ratio, phases),
        phases(starts[0].phase),
        starts[0].window.play.valid(),
        level(starts[0].window, x),
        0 <= n < starts.len(),
    ensures
        phases(starts[n].phase),
        starts[n].window.play.valid(),
        level(starts[n].window, x),
    decreases n,
{
    if n > 0 {
        beginnings_keep_level(
            kernel,
            advance,
            ratio,
            frames_per_packet,
            starts,
            phases,
            x,
            n - 1,
        );
        let from = starts[n - 1];
        let ch = from.window.channels as int;
        assert(begun_again(kernel, advance, ratio, frames_per_packet, from, starts[n - 1 + 1]));
        let (points, frames) = choose|points: Seq<ReadPoint>, frames: Seq<Seq<u32>>| #[trigger]
            giving_up(kernel, advance, ratio, frames_per_packet, from, starts[n], points, frames);
        let m = frames.len() as int;
        frames_keep_level(kernel, advance, ratio, ch, points, frames, phases, x, m);
        filling_keeps_level(points.last().window, x);
    }
}

proof fn flat_of_level<K: Fn(Taps, u64) -> u32>(
    kernel: K,
    phases: spec_fn(u64) -> bool,
    x: u32,
    frames: Seq<Seq<u32>>,
)
    requires
        forall|i: int|
            0 <= i < frames.len() ==> all_of_level(kernel, phases, x, #[trigger] frames[i]),
    ensures
        all_of_level(kernel, phases, x, frames.flatten()),
    decreases frames.len(),
{
    if frames.len() > 0 {
        let rest = frames.drop_first();
        assert forall|i: int| 0 <= i < rest.len() implies all_of_level(
            kernel,
            phases,
            x,
            #[trigger] rest[i],
        ) by {
            assert(rest[i] == frames[i + 1]);
        }
        flat_of_level(kernel, phases, x, rest);
        let head = frames[0];
        let flat = frames.flatten();
        assert(flat == head + rest.flatten());
        assert forall|i: int| 0 <= i < flat.len() implies made_of_level(
            kernel,
            phases,
            x,
            #[trigger] flat[i],
        ) by {
            if i < head.len() {
                assert(flat[i] == head[i]);
            } else {
                assert(flat[i] == rest.flatten()[i - head.len()]);
            }
        }
    }
}

/// A constant level, such as a held control voltage, comes out of the resampler
/// as the kernel gives it back, however the ratio is steered and whatever widths
/// the peer turns to, as long as nothing is lost: every sample of a block is what
/// the kernel makes of four samples at that level, at a read position among
/// `phases`, which hold all those that are ever reached. So a kernel that gives
/// the level back unchanged there keeps it unchanged. What waits to be read stays
/// at the level.
pub proof fn constant_level_is_preserved<
    K: Fn(Taps, u64) -> u32,
    A: Fn(u64, u64) -> (u64, usize),
    S: Fn(Dll, u128, u64, usize) -> Dll,
>(
    kernel: K,
    advance: A,
    steer: S,
    v: ResamplerView,
    r: ProducedView,
    after: ResamplerView,
    phases: spec_fn(u64) -> bool,
    x: u32,
)
    requires
        produced(kernel, advance, steer, v, r, after),
        v.window.play.valid(),
        level(v.window, x),
        closed_under(advance, v.begun().dll.ratio, phases),
        phases(v.phase),
    ensures
        after.window.play.valid(),
        level(after.window, x),
        phases(after.phase),
        r matches ProducedView::Block(block, _) ==> {
            &&& all_of_level(kernel, phases, x, block)
            &&& (forall|y: u32| #[trigger] made_of_level(kernel, phases, x, y) ==> y == x)
                ==> all_at(block, x)
        },
{
    let b = v.begun();
    let filled = b.point().filled();
    let ratio = b.dll.ratio;
    filling_keeps_level(b.window, x);
    if b.was_primed && b.window.filled().0 is Ready {
        let (starts, points, frames) = choose|
            starts: Seq<ReadPoint>,
            points: Seq<ReadPoint>,
            frames: Seq<Seq<u32>>,
        | #[trigger]
            rendering(
                kernel,
                advance,
                ratio,
                b.frames_per_packet,
                filled,
                r,
                after.point(),
                starts,
                points,
                frames,
            );
        let ch = starts.last().window.channels as int;
        beginnings_keep_level(
            kernel,
            advance,
            ratio,
            b.frames_per_packet,
            starts,
            phases,
            x,
            starts.len() - 1,
        );
        let m = frames.len() as int;
        frames_keep_level(kernel, advance, ratio, ch, points, frames, phases, x, m);
        flat_of_level(kernel, phases, x, frames);
        filling_keeps_level(points.last().window, x);
    }
}

/// What a playout has in stock: the samples of the blocks that it can still play,
/// and for each of these blocks one more than its channels, for the frame that a
/// window may start with.
pub open spec fn stock(play: PlayoutView) -> nat
    decreases play.reserve(),
    when play.valid()
    via stock_ends
{
    if play.can_play() {
        let b = play.next_block();
        (b.0.len() + b.1 + 1 + stock(play.played())) as nat
    } else {
        0
    }
}

#[via_fn]
proof fn stock_ends(play: PlayoutView) {
    playing_uses_up_the_reserve(play);
}

impl WindowView {
    /// What can still be read: what is in the window, and what the playout has in
    /// stock.
    pub open spec fn supply(self) -> nat {
        self.fifo.len() + stock(self.play)
    }
}

/// Every block that the playout comes up with holds at least one whole frame, as
/// long as every packet does.
pub open spec fn whole_frames(play: PlayoutView) -> bool {
    &&& forall|k: int|
        0 <= k < play.jitter.window.len() ==> match #[trigger] play.jitter.window[k] {
            Some(b) => WindowView::can_start(b),
            None => true,
        }
    &&& match play.shape {
        Some(s) => 0 < s.1 <= s.0,
        None => true,
    }
}

/// A playout that has taken in nothing but packets with at least one whole frame
/// comes up with nothing else.
pub proof fn whole_packets_keep_frames_whole(play: PlayoutView, p: PacketView)
    requires
        play.valid(),
        whole_frames(play),
        0 < p.channels <= p.samples.len(),
    ensures
        whole_frames(play.inserted(p)),
{
    let after = play.inserted(p).jitter.window;
    assert forall|k: int| 0 <= k < after.len() implies match #[trigger] after[k] {
        Some(b) => WindowView::can_start(b),
        None => true,
    } by {
        assert(play.jitter.window[k] is Some ==> WindowView::can_start(play.jitter.window[k]->0));
    }
}

proof fn playing_keeps_frames_whole(play: PlayoutView)
    requires
        play.valid(),
        play.can_play(),
        whole_frames(play),
    ensures
        WindowView::can_start(play.next_block()),
        whole_frames(play.played()),
{
    let window = play.jitter.window;
    let after = play.played().jitter.window;
    assert(match window[0] {
        Some(b) => WindowView::can_start(b),
        None => true,
    });
    assert forall|k: int| 0 <= k < after.len() implies match #[trigger] after[k] {
        Some(b) => WindowView::can_start(b),
        None => true,
    } by {
        if k < window.len() - 1 {
            assert(after[k] == window[k + 1]);
        }
    }
}

/// Filling a window draws on the supply, and changes nothing where it does not.
proof fn filling_draws_on_the_supply(w: WindowView)
    requires
        w.play.valid(),
    ensures
        w.filled().1.play.valid(),
        w.filled().1.supply() <= w.supply(),
        w.filled().1.supply() == w.supply() ==> w.filled().1 == w && !w.rebuilds(),
        whole_frames(w.play) ==> whole_frames(w.filled().1.play) && !(w.filled().0 is Broken),
    decreases w.play.reserve(),
{
    playing_uses_up_the_reserve(w.play);
    if !w.full() && w.play.can_play() {
        played_is_valid(w.play);
        if whole_frames(w.play) {
            playing_keeps_frames_whole(w.play);
        }
        if w.starts_over() ==> WindowView::can_start(w.play.next_block()) {
            filling_draws_on_the_supply(w.pulled());
        }
    }
}

/// A run of `advance` that passes no input frame.
pub open spec fn stalled<A: Fn(u64, u64) -> (u64, usize)>(
    advance: A,
    ratio: u64,
    run: Seq<u64>,
) -> bool {
    forall|i: int|
        0 <= i < run.len() - 1 ==> call_ensures(
            advance,
            (#[trigger] run[i], ratio),
            (run[i + 1], 0usize),
        )
}

/// At this ratio and from any of `phases`, `n` output frames pass at least one
/// input frame.
pub open spec fn moves_on<A: Fn(u64, u64) -> (u64, usize)>(
    advance: A,
    ratio: u64,
    phases: spec_fn(u64) -> bool,
    n: nat,
) -> bool {
    forall|run: Seq<u64>| #[trigger]
        stalled(advance, ratio, run) && (forall|i: int|
            0 <= i < run.len() ==> phases(#[trigger] run[i])) ==> run.len() <= n
}

/// At this ratio and from any of `phases`, `advance` never passes more input
/// frames at once than the kernel reads.
pub open spec fn keeps_pace<A: Fn(u64, u64) -> (u64, usize)>(
    advance: A,
    ratio: u64,
    phases: spec_fn(u64) -> bool,
) -> bool {
    forall|p: u64, q: u64, n: usize| #[trigger]
        call_ensures(advance, (p, ratio), (q, n)) && phases(p) ==> n <= KERNEL_FRAMES
}

/// The first `n` frames of a run draw on the supply, unless nothing is passed.
proof fn frames_draw_on_the_supply<
    K: Fn(Taps, u64) -> u32,
    A: Fn(u64, u64) -> (u64, usize),
>(
    kernel: K,
    advance: A,
    ratio: u64,
    ch: int,
    points: Seq<ReadPoint>,
    frames: Seq<Seq<u32>>,
    n: int,
)
    requires
        frames_made(kernel, advance, ratio, ch, points, frames),
        points[0].window.play.valid(),
        0 <= n <= frames.len(),
    ensures
        points[n].window.play.valid(),
        whole_frames(points[0].window.play) ==> whole_frames(points[n].window.play),
        points[n].window.supply() <= points[0].window.supply(),
        points[n].window.supply() == points[0].window.supply() ==> forall|i: int|
            0 <= i < n ==> call_ensures(
                advance,
                ((#[trigger] points[i]).phase, ratio),
                (points[i + 1].phase, 0usize),
            ),
    decreases n,
{
    if n > 0 {
        frames_draw_on_the_supply(kernel, advance, ratio, ch, points, frames, n - 1);
        let point = points[n - 1];
        assert(frame_made(kernel, advance, ratio, ch, point, frames[n - 1], points[n - 1 + 1]));
        let at = point.filled();
        filling_draws_on_the_supply(point.window);
        ready_is_full(point.window);
        let (phase, k) = choose|phase: u64, k: usize|
            {
                &&& #[trigger] call_ensures(advance, (at.phase, ratio), (phase, k))
                &&& k * ch <= at.window.fifo.len()
                &&& points[n] == at.passed(k as int, ch, phase)
            };
        assert(0 <= k * ch && (k > 0 ==> k * ch > 0)) by (nonlinear_arith)
            requires
                0 <= k,
                0 < ch,
        ;
        assert(points[n].window.supply() == at.window.supply() - k * ch);
    }
}

/// Beginning a block again draws on the supply.
proof fn beginnings_draw_on_the_supply<
    K: Fn(Taps, u64) -> u32,
    A: Fn(u64, u64) -> (u64, usize),
>(
    kernel: K,
    advance: A,
    ratio: u64,
    frames_per_packet: nat,
    starts: Seq<ReadPoint>,
    n: int,
)
    requires
        beginnings(kernel, advance, ratio, frames_per_packet, starts),
        starts[0].window.play.valid(),
        0 <= n < starts.len(),
    ensures
        starts[n].window.play.valid(),
        whole_frames(starts[0].window.play) ==> whole_frames(starts[n].window.play),
        starts[n].window.supply() <= starts[0].window.supply(),
    decreases n,
{
    if n > 0 {
        beginnings_draw_on_the_supply(kernel, advance, ratio, frames_per_packet, starts, n - 1);
        let from = starts[n - 1];
        let ch = from.window.channels as int;
        assert(begun_again(kernel, advance, ratio, frames_per_packet, from, starts[n - 1 + 1]));
        let (points, frames) = choose|points: Seq<ReadPoint>, frames: Seq<Seq<u32>>| #[trigger]
            giving_up(kernel, advance, ratio, frames_per_packet, from, starts[n], points, frames);
        frames_draw_on_the_supply(
            kernel,
            advance,
            ratio,
            ch,
            points,
            frames,
            frames.len() as int,
        );
        filling_draws_on_the_supply(points.last().window);
    }
}

proof fn frames_keep_phases<K: Fn(Taps, u64) -> u32, A: Fn(u64, u64) -> (u64, usize)>(
    kernel: K,
    advance: A,
    ratio: u64,
    ch: int,
    points: Seq<ReadPoint>,
    frames: Seq<Seq<u32>>,
    phases: spec_fn(u64) -> bool,
    n: int,
)
    requires
        frames_made(kernel, advance, ratio, ch, points, frames),
        closed_under(advance, ratio, phases),
        phases(points[0].phase),
        0 <= n <= frames.len(),
    ensures
        phases(points[n].phase),
    decreases n,
{
    if n > 0 {
        frames_keep_phases(kernel, advance, ratio, ch, points, frames, phases, n - 1);
        let point = points[n - 1];
        assert(frame_made(kernel, advance, ratio, ch, point, frames[n - 1], points[n - 1 + 1]));
        assert(phases(point.filled().phase));
    }
}

proof fn beginnings_keep_phases<K: Fn(Taps, u64) -> u32, A: Fn(u64, u64) -> (u64, usize)>(
    kernel: K,
    advance: A,
    ratio: u64,
    frames_per_packet: nat,
    starts: Seq<ReadPoint>,
    phases: spec_fn(u64) -> bool,
    n: int,
)
    requires
        beginnings(kernel, advance, ratio, frames_per_packet, starts),
        closed_under(advance, ratio, phases),
        phases(starts[0].phase),
        0 <= n < starts.len(),
    ensures
        phases(starts[n].phase),
    decreases n,
{
    if n > 0 {
        beginnings_keep_phases(
            kernel,
            advance,
            ratio,
            frames_per_packet,
            starts,
            phases,
            n - 1,
        );
        let from = starts[n - 1];
        let ch = from.window.channels as int;
        assert(begun_again(kernel, advance, ratio, frames_per_packet, from, starts[n - 1 + 1]));
        let (points, frames) = choose|points: Seq<ReadPoint>, frames: Seq<Seq<u32>>| #[trigger]
            giving_up(kernel, advance, ratio, frames_per_packet, from, starts[n], points, frames);
        let m = frames.len() as int;
        frames_keep_phases(kernel, advance, ratio, ch, points, frames, phases, m);
    }
}

/// Wherever rendering a block leads, the read position is one of `phases`.
proof fn rendering_keeps_phases<K: Fn(Taps, u64) -> u32, A: Fn(u64, u64) -> (u64, usize)>(
    kernel: K,
    advance: A,
    ratio: u64,
    frames_per_packet: nat,
    from: ReadPoint,
    r: ProducedView,
    to: ReadPoint,
    starts: Seq<ReadPoint>,
    points: Seq<ReadPoint>,
    frames: Seq<Seq<u32>>,
    phases: spec_fn(u64) -> bool,
)
    requires
        rendering(
            kernel,
            advance,
            ratio,
            frames_per_packet,
            from,
            r,
            to,
            starts,
            points,
            frames,
        ),
        closed_under(advance, ratio, phases),
        phases(from.phase),
    ensures
        forall|i: int| 0 <= i < points.len() ==> phases((#[trigger] points[i]).phase),
        phases(to.phase),
{
    let ch = starts.last().window.channels as int;
    beginnings_keep_phases(
        kernel,
        advance,
        ratio,
        frames_per_packet,
        starts,
        phases,
        starts.len() - 1,
    );
    assert forall|i: int| 0 <= i < points.len() implies phases((#[trigger] points[i]).phase) by {
        frames_keep_phases(kernel, advance, ratio, ch, points, frames, phases, i);
    }
    assert(phases(points.last().phase));
    assert(phases(points.last().filled().phase));
}

/// A block that has come out has passed some input, and so used up some of the
/// supply.
proof fn block_uses_up_supply<K: Fn(Taps, u64) -> u32, A: Fn(u64, u64) -> (u64, usize)>(
    kernel: K,
    advance: A,
    ratio: u64,
    ch: int,
    points: Seq<ReadPoint>,
    frames: Seq<Seq<u32>>,
    phases: spec_fn(u64) -> bool,
)
    requires
        frames_made(kernel, advance, ratio, ch, points, frames),
        points[0].window.play.valid(),
        forall|i: int| 0 <= i < points.len() ==> phases((#[trigger] points[i]).phase),
        moves_on(advance, ratio, phases, frames.len()),
    ensures
        points.last().window.supply() < points[0].window.supply(),
{
    let n = frames.len() as int;
    frames_draw_on_the_supply(kernel, advance, ratio, ch, points, frames, n);
    if points[n].window.supply() == points[0].window.supply() {
        stalling_ends(advance, ratio, points, phases, frames.len());
    }
}

/// Not every one of `n` output frames passes nothing.
proof fn stalling_ends<A: Fn(u64, u64) -> (u64, usize)>(
    advance: A,
    ratio: u64,
    points: Seq<ReadPoint>,
    phases: spec_fn(u64) -> bool,
    n: nat,
)
    requires
        points.len() == n + 1,
        forall|i: int| 0 <= i < points.len() ==> phases((#[trigger] points[i]).phase),
        moves_on(advance, ratio, phases, n),
    ensures
        !forall|i: int|
            0 <= i < n ==> call_ensures(
                advance,
                ((#[trigger] points[i]).phase, ratio),
                (points[i + 1].phase, 0usize),
            ),
{
    let run = points.map_values(|p: ReadPoint| p.phase);
    if forall|i: int|
        0 <= i < n ==> call_ensures(
            advance,
            ((#[trigger] points[i]).phase, ratio),
            (points[i + 1].phase, 0usize),
        ) {
        assert forall|i: int| 0 <= i < run.len() - 1 implies call_ensures(
            advance,
            (#[trigger] run[i], ratio),
            (run[i + 1], 0usize),
        ) by {
            assert(points[i].phase == run[i]);
        }
        assert(stalled(advance, ratio, run));
    }
    assert forall|i: int| 0 <= i < run.len() implies phases(#[trigger] run[i]) by {
        assert(points[i].phase == run[i]);
    }
}

/// Whatever the resampler comes up with, it draws on what there is to be read,
/// and a block uses some of it up. Where every packet holds whole frames, nothing
/// is met that cannot be rendered. `phases` hold every read position that is
/// reached.
pub proof fn producing_draws_on_the_supply<
    K: Fn(Taps, u64) -> u32,
    A: Fn(u64, u64) -> (u64, usize),
    S: Fn(Dll, u128, u64, usize) -> Dll,
>(
    kernel: K,
    advance: A,
    steer: S,
    v: ResamplerView,
    r: ProducedView,
    after: ResamplerView,
    phases: spec_fn(u64) -> bool,
)
    requires
        produced(kernel, advance, steer, v, r, after),
        v.window.play.valid(),
        closed_under(advance, v.begun().dll.ratio, phases),
        phases(v.phase),
        moves_on(advance, v.begun().dll.ratio, phases, v.frames_per_packet),
    ensures
        after.window.play.valid(),
        phases(after.phase),
        after.frames_per_packet == v.frames_per_packet,
        after.window.supply() <= v.window.supply(),
        r is Block ==> after.window.supply() < v.window.supply(),
        whole_frames(v.window.play) ==> whole_frames(after.window.play),
        whole_frames(v.window.play) && keeps_pace(advance, v.begun().dll.ratio, phases) ==> !(
        r is Broken),
{
    let b = v.begun();
    let filled = b.point().filled();
    let ratio = b.dll.ratio;
    filling_draws_on_the_supply(b.window);
    if b.was_primed && b.window.filled().0 is Ready {
        let (starts, points, frames) = choose|
            starts: Seq<ReadPoint>,
            points: Seq<ReadPoint>,
            frames: Seq<Seq<u32>>,
        | #[trigger]
            rendering(
                kernel,
                advance,
                ratio,
                b.frames_per_packet,
                filled,
                r,
                after.point(),
                starts,
                points,
                frames,
            );
        let ch = starts.last().window.channels as int;
        rendering_keeps_phases(
            kernel,
            advance,
            ratio,
            b.frames_per_packet,
            filled,
            r,
            after.point(),
            starts,
            points,
            frames,
            phases,
        );
        beginnings_draw_on_the_supply(
            kernel,
            advance,
            ratio,
            b.frames_per_packet,
            starts,
            starts.len() - 1,
        );
        let n = frames.len() as int;
        frames_draw_on_the_supply(kernel, advance, ratio, ch, points, frames, n);
        if r is Block {
            block_uses_up_supply(kernel, advance, ratio, ch, points, frames, phases);
        } else {
            let last = points.last();
            filling_draws_on_the_supply(last.window);
            ready_is_full(last.window);
            if last.readable(ch) && keeps_pace(advance, ratio, phases) {
                full_window_has_taps(last.filled().window);
                assert forall|k: usize| k <= 4 implies #[trigger] (k * ch)
                    <= last.filled().window.fifo.len() by {
                    assert(k * ch <= 4 * ch) by (nonlinear_arith)
                        requires
                            k <= 4,
                            0 <= ch,
                    ;
                }
            }
        }
    }
}

/// `views` are what a resampler held before and after each of a run of calls,
/// with nothing arriving in between, and `outcomes` what it came up with. The read
/// positions stay among `phases`; from any of these and at every ratio of the run
/// a block's worth of output frames passes some input, and no output frame passes
/// more than the kernel reads.
pub open spec fn left_alone<
    K: Fn(Taps, u64) -> u32,
    A: Fn(u64, u64) -> (u64, usize),
    S: Fn(Dll, u128, u64, usize) -> Dll,
>(
    kernel: K,
    advance: A,
    steer: S,
    phases: spec_fn(u64) -> bool,
    views: Seq<ResamplerView>,
    outcomes: Seq<ProducedView>,
) -> bool {
    &&& views.len() == outcomes.len() + 1
    &&& phases(views[0].phase)
    &&& forall|i: int|
        0 <= i < outcomes.len() ==> {
            let ratio = (#[trigger] views[i]).begun().dll.ratio;
            &&& produced(kernel, advance, steer, views[i], outcomes[i], views[i + 1])
            &&& closed_under(advance, ratio, phases)
            &&& moves_on(advance, ratio, phases, views[i].frames_per_packet)
            &&& keeps_pace(advance, ratio, phases)
        }
}

/// A resampler that is starved runs dry: where nothing more arrives, it stops
/// producing after so many calls as there is supply, if not before.
pub proof fn starved_resampler_runs_dry<
    K: Fn(Taps, u64) -> u32,
    A: Fn(u64, u64) -> (u64, usize),
    S: Fn(Dll, u128, u64, usize) -> Dll,
>(
    kernel: K,
    advance: A,
    steer: S,
    phases: spec_fn(u64) -> bool,
    views: Seq<ResamplerView>,
    outcomes: Seq<ProducedView>,
)
    requires
        left_alone(kernel, advance, steer, phases, views, outcomes),
        views[0].window.play.valid(),
        whole_frames(views[0].window.play),
        outcomes.len() > views[0].window.supply(),
    ensures
        exists|i: int| 0 <= i <= views[0].window.supply() && #[trigger] outcomes[i] is Dry,
{
    let bound = views[0].window.supply() as int;
    if forall|i: int| 0 <= i <= bound ==> !(#[trigger] outcomes[i] is Dry) {
        blocks_use_up_the_supply(kernel, advance, steer, phases, views, outcomes, bound + 1);
    }
}

proof fn blocks_use_up_the_supply<
    K: Fn(Taps, u64) -> u32,
    A: Fn(u64, u64) -> (u64, usize),
    S: Fn(Dll, u128, u64, usize) -> Dll,
>(
    kernel: K,
    advance: A,
    steer: S,
    phases: spec_fn(u64) -> bool,
    views: Seq<ResamplerView>,
    outcomes: Seq<ProducedView>,
    n: int,
)
    requires
        left_alone(kernel, advance, steer, phases, views, outcomes),
        views[0].window.play.valid(),
        whole_frames(views[0].window.play),
        0 <= n <= outcomes.len(),
        forall|i: int| 0 <= i < n ==> !(#[trigger] outcomes[i] is Dry),
    ensures
        phases(views[n].phase),
        views[n].window.play.valid(),
        whole_frames(views[n].window.play),
        views[n].window.supply() + n <= views[0].window.supply(),
    decreases n,
{
    if n > 0 {
        blocks_use_up_the_supply(kernel, advance, steer, phases, views, outcomes, n - 1);
        let (v, r) = (views[n - 1], outcomes[n - 1]);
        assert(produced(kernel, advance, steer, v, r, views[n - 1 + 1]));
        producing_draws_on_the_supply(kernel, advance, steer, v, r, views[n], phases);
        assert(!(outcomes[n - 1] is Dry));
    }
}

/// Everything that a playout will still play before another packet has to arrive,
/// one block behind the other.
pub open spec fn coming(play: PlayoutView) -> Seq<u32>
    decreases play.reserve(),
    when play.valid()
    via coming_ends
{
    if play.can_play() {
        play.next_block().0 + coming(play.played())
    } else {
        Seq::empty()
    }
}

#[via_fn]
proof fn coming_ends(play: PlayoutView) {
    playing_uses_up_the_reserve(play);
}

/// Everything that waits to be read, in order: what stands in the window, and
/// behind it what the playout will still play. An empty window starts with a copy
/// of the first frame.
pub open spec fn waiting(w: WindowView) -> Seq<u32> {
    if w.channels > 0 {
        w.fifo + coming(w.play)
    } else if w.play.can_play() {
        w.play.next_block().0.take(w.play.next_block().1 as int) + coming(w.play)
    } else {
        Seq::empty()
    }
}

/// Every block that the playout holds is of `ch` channels and has a whole frame.
pub open spec fn one_width(play: PlayoutView, ch: int) -> bool {
    &&& forall|k: int|
        0 <= k < play.jitter.window.len() ==> match #[trigger] play.jitter.window[k] {
            Some(b) => b.1 == ch && ch <= b.0.len(),
            None => true,
        }
    &&& match play.shape {
        Some(s) => s.1 == ch && ch <= s.0,
        None => true,
    }
}

proof fn playing_keeps_width(play: PlayoutView, ch: int)
    requires
        play.valid(),
        play.can_play(),
        one_width(play, ch),
    ensures
        play.next_block().1 == ch,
        ch <= play.next_block().0.len(),
        one_width(play.played(), ch),
{
    let window = play.jitter.window;
    let after = play.played().jitter.window;
    assert(match window[0] {
        Some(b) => b.1 == ch && ch <= b.0.len(),
        None => true,
    });
    assert forall|k: int| 0 <= k < after.len() implies match #[trigger] after[k] {
        Some(b) => b.1 == ch && ch <= b.0.len(),
        None => true,
    } by {
        if k < window.len() - 1 {
            assert(after[k] == window[k + 1]);
        }
    }
}

/// Filling a window loses nothing, adds nothing and changes no order: the same
/// waits to be read. It ends with at least four frames in the window, or for want
/// of input where no more than three wait.
pub proof fn filling_keeps_what_waits(w: WindowView, ch: int)
    requires
        w.play.valid(),
        0 < ch,
        one_width(w.play, ch),
        w.channels == 0 || w.channels == ch,
    ensures
        ({
            let at = w.filled().1;
            &&& at.play.valid()
            &&& one_width(at.play, ch)
            &&& waiting(at) == waiting(w)
            &&& at.channels == ch || at == w
            &&& w.filled().0 is Ready ==> at.channels == ch && 4 * ch <= at.fifo.len()
            &&& w.filled().0 is Ready <==> 4 * ch <= waiting(w).len()
            &&& w.filled().0 is Underrun <==> waiting(w).len() < 4 * ch
            &&& w.filled().0 is Underrun ==> coming(at.play).len() == 0
            &&& !w.rebuilds()
        }),
    decreases w.play.reserve(),
{
    playing_uses_up_the_reserve(w.play);
    if w.full() {
        full_window_has_taps(w);
    } else if w.play.can_play() {
        played_is_valid(w.play);
        playing_keeps_width(w.play, ch);
        let b = w.play.next_block();
        assert(waiting(w.pulled()) =~= waiting(w));
        filling_keeps_what_waits(w.pulled(), ch);
    } else if w.channels > 0 {
        passing_bound(4, ch, w.fifo.len() as int);
        assert(waiting(w) =~= w.fifo);
    }
}

/// Filling takes in no more blocks than it has to: before each of them there were
/// fewer than four frames in the window.
pub proof fn filling_takes_no_more_than_needed(w: WindowView, ch: int) -> (taken: nat)
    requires
        w.play.valid(),
        0 < ch,
        one_width(w.play, ch),
        w.channels == 0 || w.channels == ch,
    ensures
        w.filled().1.play == after_plays(w.play, taken),
        forall|j: nat|
            j < taken ==> waiting(w).len() - coming(#[trigger] after_plays(w.play, j)).len() < 4
                * ch,
    decreases w.play.reserve(),
{
    playing_uses_up_the_reserve(w.play);
    if !w.full() && w.play.can_play() {
        played_is_valid(w.play);
        playing_keeps_width(w.play, ch);
        assert(waiting(w.pulled()) =~= waiting(w));
        let rest = filling_takes_no_more_than_needed(w.pulled(), ch);
        plays_add_up(w.play, rest);
        if w.channels > 0 {
            passing_bound(4, ch, w.fifo.len() as int);
        }
        assert forall|j: nat| j < rest + 1 implies waiting(w).len() - coming(
            #[trigger] after_plays(w.play, j),
        ).len() < 4 * ch by {
            if j > 0 {
                plays_add_up(w.play, (j - 1) as nat);
                assert(after_plays(w.play.played(), (j - 1) as nat) == after_plays(w.play, j));
            }
        }
        rest + 1
    } else {
        0
    }
}

proof fn plays_add_up(play: PlayoutView, n: nat)
    ensures
        after_plays(play.played(), n) == after_plays(play, n + 1),
    decreases n,
{
    if n > 0 {
        plays_add_up(play, (n - 1) as nat);
    } else {
        assert(after_plays(play, 0) == play);
    }
}

/// What a playout will still play at a width of `ch` channels: its blocks up to the
/// first of another width.
pub open spec fn coming_at(play: PlayoutView, ch: int) -> Seq<u32>
    decreases play.reserve(),
    when play.valid()
    via coming_at_ends
{
    if play.can_play() && play.next_block().1 == ch {
        play.next_block().0 + coming_at(play.played(), ch)
    } else {
        Seq::empty()
    }
}

#[via_fn]
proof fn coming_at_ends(play: PlayoutView, ch: int) {
    playing_uses_up_the_reserve(play);
}

/// The playout once all that has been played.
pub open spec fn rest_at(play: PlayoutView, ch: int) -> PlayoutView
    decreases play.reserve(),
    when play.valid()
    via rest_at_ends
{
    if play.can_play() && play.next_block().1 == ch {
        rest_at(play.played(), ch)
    } else {
        play
    }
}

#[via_fn]
proof fn rest_at_ends(play: PlayoutView, ch: int) {
    playing_uses_up_the_reserve(play);
}

/// The playout `to` is what `from` becomes as it plays on.
pub open spec fn plays_on_to(from: PlayoutView, to: PlayoutView) -> bool
    decreases from.reserve(),
    when from.valid()
    via plays_on_ends
{
    from == to || (from.can_play() && plays_on_to(from.played(), to))
}

#[via_fn]
proof fn plays_on_ends(from: PlayoutView, to: PlayoutView) {
    playing_uses_up_the_reserve(from);
}

proof fn playing_on_goes_on(a: PlayoutView, b: PlayoutView, c: PlayoutView)
    requires
        a.valid(),
        b.valid(),
        plays_on_to(a, b),
        plays_on_to(b, c),
    ensures
        plays_on_to(a, c),
    decreases a.reserve(),
{
    playing_uses_up_the_reserve(a);
    if a != b {
        played_is_valid(a);
        playing_on_goes_on(a.played(), b, c);
    }
}

proof fn playing_on_keeps_width(from: PlayoutView, to: PlayoutView, ch: int)
    requires
        from.valid(),
        one_width(from, ch),
        plays_on_to(from, to),
    ensures
        to.valid(),
        one_width(to, ch),
    decreases from.reserve(),
{
    playing_uses_up_the_reserve(from);
    if from != to {
        played_is_valid(from);
        playing_keeps_width(from, ch);
        playing_on_keeps_width(from.played(), to, ch);
    }
}

/// Everything that waits to be read at the width of the window.
pub open spec fn waiting_at(w: WindowView) -> Seq<u32> {
    w.fifo + coming_at(w.play, w.channels as int)
}

/// A window that has just started over, with the next block of a playout: the block
/// behind a copy of its first frame.
pub open spec fn started_over(rest: PlayoutView) -> WindowView {
    let b = rest.next_block();
    WindowView { play: rest.played(), fifo: b.0.take(b.1 as int) + b.0, channels: b.1 as nat }
}

/// The next block, if there is one, has at least three frames.
pub open spec fn starts_well(rest: PlayoutView) -> bool {
    rest.can_play() ==> 0 < rest.next_block().1 && 3 * rest.next_block().1
        <= rest.next_block().0.len()
}

proof fn one_width_waits(play: PlayoutView, ch: int)
    requires
        play.valid(),
        one_width(play, ch),
    ensures
        coming_at(play, ch) == coming(play),
        !rest_at(play, ch).can_play(),
    decreases play.reserve(),
{
    playing_uses_up_the_reserve(play);
    if play.can_play() {
        played_is_valid(play);
        playing_keeps_width(play, ch);
        one_width_waits(play.played(), ch);
    }
}

/// Filling a window that has a width: what waits at that width comes in first, as far
/// as it is needed. Where four frames of it wait, filling ends with as many in the
/// window, and the same waits. Where fewer do, all of it comes in; then filling ends
/// if nothing is left to play, and otherwise the window starts over with the next
/// block, which is of another width, and reading goes on at its first frame.
pub proof fn filling_goes_by_width(point: ReadPoint)
    requires
        point.window.play.valid(),
        point.window.channels > 0,
        starts_well(rest_at(point.window.play, point.window.channels as int)),
    ensures
        ({
            let w = point.window;
            let ch = w.channels as int;
            let s = waiting_at(w);
            let rest = rest_at(w.play, ch);
            let at = point.filled();
            &&& rest.valid()
            &&& plays_on_to(w.play, rest)
            &&& 4 * ch <= s.len() ==> {
                &&& w.filled().0 is Ready
                &&& at.window.channels == ch
                &&& at.window.play.valid()
                &&& 4 * ch <= at.window.fifo.len()
                &&& waiting_at(at.window) == s
                &&& rest_at(at.window.play, ch) == rest
                &&& plays_on_to(w.play, at.window.play)
                &&& at.phase == point.phase
            }
            &&& s.len() < 4 * ch && !rest.can_play() ==> {
                &&& w.filled().0 is Underrun
                &&& at.window == (WindowView { play: rest, fifo: s, channels: w.channels })
                &&& at.phase == point.phase
            }
            &&& s.len() < 4 * ch && rest.can_play() ==> {
                &&& w.filled().0 is Ready
                &&& at.window == started_over(rest)
                &&& at.window.channels != ch
                &&& at.phase == 0
            }
        }),
    decreases point.window.play.reserve(),
{
    let w = point.window;
    let ch = w.channels as int;
    playing_uses_up_the_reserve(w.play);
    passing_bound(4, ch, w.fifo.len() as int);
    if w.full() {
        full_window_has_taps(w);
        rest_is_valid(w.play, ch);
    } else if w.play.can_play() {
        played_is_valid(w.play);
        let b = w.play.next_block();
        if b.1 == ch {
            let next = ReadPoint { window: w.pulled(), ..point };
            assert(waiting_at(next.window) =~= waiting_at(w));
            filling_goes_by_width(next);
        } else {
            let over = started_over(w.play);
            assert(over == w.pulled());
            passing_bound(4, b.1 as int, over.fifo.len() as int);
            assert(over.full());
            assert(over.filled() == (Fill::Ready, over));
            assert(waiting_at(w) =~= w.fifo);
        }
    } else {
        assert(waiting_at(w) =~= w.fifo);
    }
}

proof fn rest_is_valid(play: PlayoutView, ch: int)
    requires
        play.valid(),
    ensures
        rest_at(play, ch).valid(),
        plays_on_to(play, rest_at(play, ch)),
        rest_at(play, ch).can_play() ==> rest_at(play, ch).next_block().1 != ch,
    decreases play.reserve(),
{
    playing_uses_up_the_reserve(play);
    if play.can_play() && play.next_block().1 == ch {
        played_is_valid(play);
        rest_is_valid(play.played(), ch);
    }
}

/// `y` is what the kernel makes of channel `c` of the four frames of `s`, an input
/// of `ch` channels, at the read position `at`: whole frames that have been passed,
/// and the fractional position behind these.
pub open spec fn sample_read<K: Fn(Taps, u64) -> u32>(
    kernel: K,
    ch: int,
    s: Seq<u32>,
    at: (int, u64),
    c: int,
    y: u32,
) -> bool {
    let q = at.0;
    &&& 0 <= q * ch + c
    &&& (q + 3) * ch + c < s.len()
    &&& call_ensures(
        kernel,
        (
            (
                s[q * ch + c],
                s[(q + 1) * ch + c],
                s[(q + 2) * ch + c],
                s[(q + 3) * ch + c],
            ),
            at.1,
        ),
        y,
    )
}

/// `advance` leads from one read position to the other.
pub open spec fn leads_to<A: Fn(u64, u64) -> (u64, usize)>(
    advance: A,
    ratio: u64,
    from: (int, u64),
    to: (int, u64),
) -> bool {
    exists|n: usize| #[trigger]
        call_ensures(advance, (from.1, ratio), (to.1, n)) && to.0 == from.0 + n
}

/// `out` is what a reader of `s`, an input of `ch` channels, makes of it on its way
/// along `path`, a run of read positions: an output frame at each but the last.
pub open spec fn read_along<K: Fn(Taps, u64) -> u32, A: Fn(u64, u64) -> (u64, usize)>(
    kernel: K,
    advance: A,
    ratio: u64,
    ch: int,
    s: Seq<u32>,
    path: Seq<(int, u64)>,
    out: Seq<u32>,
) -> bool {
    &&& path.len() > 0
    &&& out.len() == (path.len() - 1) * ch
    &&& forall|k: int, c: int|
        0 <= k < path.len() - 1 && 0 <= c < ch ==> #[trigger] sample_read(
            kernel,
            ch,
            s,
            path[k],
            c,
            out[k * ch + c],
        )
    &&& forall|k: int|
        0 <= k < path.len() - 1 ==> #[trigger] leads_to(advance, ratio, path[k], path[k + 1])
}

proof fn frame_reads<K: Fn(Taps, u64) -> u32, A: Fn(u64, u64) -> (u64, usize)>(
    kernel: K,
    advance: A,
    ratio: u64,
    ch: int,
    s: Seq<u32>,
    q: int,
    point: ReadPoint,
    frame: Seq<u32>,
    after: ReadPoint,
) -> (m: usize)
    requires
        frame_made(kernel, advance, ratio, ch, point, frame, after),
        0 < ch,
        point.window.play.valid(),
        point.window.channels == ch,
        starts_well(rest_at(point.window.play, ch)),
        0 <= q * ch <= s.len(),
        waiting_at(point.window) == s.skip(q * ch),
    ensures
        after.window.play.valid(),
        after.window.channels == ch,
        rest_at(after.window.play, ch) == rest_at(point.window.play, ch),
        plays_on_to(point.window.play, after.window.play),
        0 <= (q + m) * ch <= s.len(),
        waiting_at(after.window) == s.skip((q + m) * ch),
        frame.len() == ch,
        leads_to(advance, ratio, (q, point.phase), (q + m, after.phase)),
        forall|c: int|
            0 <= c < ch ==> #[trigger] sample_read(
                kernel,
                ch,
                s,
                (q, point.phase),
                c,
                frame[c],
            ),
{
    let at = point.filled();
    filling_goes_by_width(point);
    let (phase, m) = choose|phase: u64, m: usize|
        {
            &&& #[trigger] call_ensures(advance, (at.phase, ratio), (phase, m))
            &&& m * ch <= at.window.fifo.len()
            &&& after == at.passed(m as int, ch, phase)
        };
    assert(0 <= m * ch) by (nonlinear_arith)
        requires
            0 <= m,
            0 < ch,
    ;
    assert((q + m) * ch == q * ch + m * ch) by (nonlinear_arith);
    assert((q + 1) * ch == q * ch + ch) by (nonlinear_arith);
    assert((q + 2) * ch == q * ch + 2 * ch) by (nonlinear_arith);
    assert((q + 3) * ch == q * ch + 3 * ch) by (nonlinear_arith);
    let fifo = at.window.fifo;
    let rest = s.skip(q * ch);
    assert(rest == fifo + coming_at(at.window.play, ch));
    assert forall|c: int| 0 <= c < ch implies #[trigger] sample_read(
        kernel,
        ch,
        s,
        (q, point.phase),
        c,
        frame[c],
    ) by {
        assert(fifo[c] == rest[c] && rest[c] == s[q * ch + c]);
        assert(fifo[ch + c] == rest[ch + c] && rest[ch + c] == s[(q + 1) * ch + c]);
        assert(fifo[2 * ch + c] == rest[2 * ch + c] && rest[2 * ch + c] == s[(q + 2) * ch + c]);
        assert(fifo[3 * ch + c] == rest[3 * ch + c] && rest[3 * ch + c] == s[(q + 3) * ch + c]);
        assert(call_ensures(kernel, (taps_at(fifo, ch, c), at.phase), frame[c]));
    }
    let tail = coming_at(at.window.play, ch);
    assert(after.window.fifo == fifo.skip(m * ch));
    assert(fifo.skip(m * ch) + tail =~= (fifo + tail).skip(m * ch));
    assert(rest.skip(m * ch) =~= s.skip((q + m) * ch));
    assert(call_ensures(advance, ((q, point.phase).1, ratio), ((q + m, after.phase).1, m)));
    m
}

proof fn frame_extends<K: Fn(Taps, u64) -> u32, A: Fn(u64, u64) -> (u64, usize)>(
    kernel: K,
    advance: A,
    ratio: u64,
    ch: int,
    s: Seq<u32>,
    path: Seq<(int, u64)>,
    out: Seq<u32>,
    frame: Seq<u32>,
    next: (int, u64),
)
    requires
        0 < ch,
        read_along(kernel, advance, ratio, ch, s, path, out),
        frame.len() == ch,
        leads_to(advance, ratio, path.last(), next),
        forall|c: int|
            0 <= c < ch ==> #[trigger] sample_read(kernel, ch, s, path.last(), c, frame[c]),
    ensures
        read_along(kernel, advance, ratio, ch, s, path.push(next), out + frame),
{
    let n = path.len() as int;
    let longer = path.push(next);
    let all = out + frame;
    assert(n * ch == (n - 1) * ch + ch) by (nonlinear_arith);
    assert forall|k: int, c: int| 0 <= k < n && 0 <= c < ch implies #[trigger] sample_read(
        kernel,
        ch,
        s,
        longer[k],
        c,
        all[k * ch + c],
    ) by {
        assert(longer[k] == path[k]);
        if k < n - 1 {
            cell_position(k, c, ch, n - 1);
            assert(sample_read(kernel, ch, s, path[k], c, out[k * ch + c]));
        } else {
            assert(all[k * ch + c] == frame[c]);
        }
    }
    assert forall|k: int| 0 <= k < n implies #[trigger] leads_to(
        advance,
        ratio,
        longer[k],
        longer[k + 1],
    ) by {
        if k < n - 1 {
            assert(leads_to(advance, ratio, path[k], path[k + 1]));
        }
    }
}

proof fn made_at<K: Fn(Taps, u64) -> u32, A: Fn(u64, u64) -> (u64, usize)>(
    kernel: K,
    advance: A,
    ratio: u64,
    ch: int,
    points: Seq<ReadPoint>,
    frames: Seq<Seq<u32>>,
    i: int,
)
    requires
        frames_made(kernel, advance, ratio, ch, points, frames),
        0 <= i < frames.len(),
    ensures
        points.len() == frames.len() + 1,
        frame_made(kernel, advance, ratio, ch, points[i], frames[i], points[i + 1]),
{
}

/// The frames up to the `n`th have been read along `path`.
spec fn read_up_to<K: Fn(Taps, u64) -> u32, A: Fn(u64, u64) -> (u64, usize)>(
    kernel: K,
    advance: A,
    ratio: u64,
    ch: int,
    s: Seq<u32>,
    from: ReadPoint,
    to: ReadPoint,
    out: Seq<u32>,
    path: Seq<(int, u64)>,
    n: int,
) -> bool {
    &&& to.window.play.valid()
    &&& to.window.channels == ch
    &&& rest_at(to.window.play, ch) == rest_at(from.window.play, ch)
    &&& plays_on_to(from.window.play, to.window.play)
    &&& path.len() == n + 1
    &&& path[0] == (0int, from.phase)
    &&& path.last().1 == to.phase
    &&& 0 <= path.last().0 * ch <= s.len()
    &&& waiting_at(to.window) == s.skip(path.last().0 * ch)
    &&& read_along(kernel, advance, ratio, ch, s, path, out)
}

#[verifier::spinoff_prover]
proof fn frames_read_along<K: Fn(Taps, u64) -> u32, A: Fn(u64, u64) -> (u64, usize)>(
    kernel: K,
    advance: A,
    ratio: u64,
    ch: int,
    points: Seq<ReadPoint>,
    frames: Seq<Seq<u32>>,
    n: int,
) -> (path: Seq<(int, u64)>)
    requires
        frames_made(kernel, advance, ratio, ch, points, frames),
        0 < ch,
        points[0].window.play.valid(),
        points[0].window.channels == ch,
        starts_well(rest_at(points[0].window.play, ch)),
        0 <= n <= frames.len(),
    ensures
        read_up_to(
            kernel,
            advance,
            ratio,
            ch,
            waiting_at(points[0].window),
            points[0],
            points[n],
            frames.take(n).flatten(),
            path,
            n,
        ),
    decreases n,
{
    let s = waiting_at(points[0].window);
    if n == 0 {
        let path = seq![(0int, points[0].phase)];
        assert(frames.take(0) =~= Seq::empty());
        assert(frames.take(0).flatten() =~= Seq::empty());
        assert(0 * ch == 0);
        assert(s.skip(0) =~= s);
        path
    } else {
        let before = frames_read_along(kernel, advance, ratio, ch, points, frames, n - 1);
        let (q, phase) = before.last();
        let frame = frames[n - 1];
        made_at(kernel, advance, ratio, ch, points, frames, n - 1);
        let m = frame_reads(
            kernel,
            advance,
            ratio,
            ch,
            s,
            q,
            points[n - 1],
            frame,
            points[n - 1 + 1],
        );
        playing_on_goes_on(
            points[0].window.play,
            points[n - 1].window.play,
            points[n].window.play,
        );
        let next = (q + m, points[n].phase);
        let was = frames.take(n - 1).flatten();
        assert(frames.take(n) =~= frames.take(n - 1).push(frame));
        frames.take(n - 1).lemma_flatten_push(frame);
        frame_extends(kernel, advance, ratio, ch, s, before, was, frame, next);
        before.push(next)
    }
}

proof fn giving_up_is_turning<K: Fn(Taps, u64) -> u32, A: Fn(u64, u64) -> (u64, usize)>(
    kernel: K,
    advance: A,
    ratio: u64,
    frames_per_packet: nat,
    from: ReadPoint,
    to: ReadPoint,
    points: Seq<ReadPoint>,
    frames: Seq<Seq<u32>>,
    ch: int,
) -> (path: Seq<(int, u64)>)
    requires
        giving_up(kernel, advance, ratio, frames_per_packet, from, to, points, frames),
        0 < ch,
        from.window.play.valid(),
        from.window.channels == ch,
        starts_well(rest_at(from.window.play, ch)),
    ensures
        ({
            let s = waiting_at(from.window);
            let rest = rest_at(from.window.play, ch);
            let q = path.last().0;
            &&& read_along(kernel, advance, ratio, ch, s, path, frames.flatten())
            &&& path[0] == (0int, from.phase)
            &&& 0 <= q * ch <= s.len()
            &&& path.len() <= frames_per_packet
            &&& s.len() - q * ch < 4 * ch
            &&& rest.can_play()
            &&& to == (ReadPoint { window: started_over(rest), phase: 0 })
        }),
{
    let m = frames.len() as int;
    let path = frames_read_along(kernel, advance, ratio, ch, points, frames, m);
    assert(frames.take(m) =~= frames);
    filling_goes_by_width(points[m]);
    path
}

proof fn second_beginning<K: Fn(Taps, u64) -> u32, A: Fn(u64, u64) -> (u64, usize)>(
    kernel: K,
    advance: A,
    ratio: u64,
    frames_per_packet: nat,
    starts: Seq<ReadPoint>,
)
    requires
        beginnings(kernel, advance, ratio, frames_per_packet, starts),
        starts.len() > 1,
    ensures
        begun_again(kernel, advance, ratio, frames_per_packet, starts[0], starts[1]),
        beginnings(kernel, advance, ratio, frames_per_packet, starts.skip(1)),
{
    let rest = starts.skip(1);
    assert(begun_again(kernel, advance, ratio, frames_per_packet, starts[0], starts[0int + 1]));
    assert forall|i: int| 0 <= i < rest.len() - 1 implies begun_again(
        kernel,
        advance,
        ratio,
        frames_per_packet,
        #[trigger] rest[i],
        rest[i + 1],
    ) by {
        assert(begun_again(
            kernel,
            advance,
            ratio,
            frames_per_packet,
            starts[i + 1],
            starts[i + 1 + 1],
        ));
    }
}

/// The frame that was not made: too little was left, or `advance` went too far.
proof fn failing_leaves_off<A: Fn(u64, u64) -> (u64, usize)>(
    advance: A,
    ratio: u64,
    ch: int,
    point: ReadPoint,
    dry: bool,
    after: ReadPoint,
)
    requires
        frame_fails(advance, ratio, ch, point, dry, after),
        0 < ch,
        point.window.play.valid(),
        point.window.channels == ch,
        starts_well(rest_at(point.window.play, ch)),
    ensures
        dry ==> {
            let rest = rest_at(point.window.play, ch);
            let s = waiting_at(point.window);
            &&& s.len() < 4 * ch
            &&& !rest.can_play()
            &&& after.window == (WindowView { play: rest, fifo: s, channels: ch as nat })
            &&& after.phase == point.phase
        },
        !dry ==> {
            &&& exists|n: usize| #[trigger]
                call_ensures(advance, (point.phase, ratio), (after.phase, n)) && n > 4
            &&& after.window.play.valid()
            &&& after.window.channels == ch
            &&& waiting_at(after.window) == waiting_at(point.window)
            &&& rest_at(after.window.play, ch) == rest_at(point.window.play, ch)
            &&& plays_on_to(point.window.play, after.window.play)
        },
{
    let at = point.filled();
    filling_goes_by_width(point);
    if !dry {
        let (phase, n) = choose|phase: u64, n: usize|
            {
                &&& #[trigger] call_ensures(advance, (at.phase, ratio), (phase, n))
                &&& n * ch > at.window.fifo.len()
                &&& after == (ReadPoint { phase, ..at })
            };
        assert(call_ensures(advance, (point.phase, ratio), (after.phase, n)));
        assert(n > 4) by (nonlinear_arith)
            requires
                n * ch > 4 * ch,
                0 < ch,
        ;
    }
}

/// What comes of a block that is begun at `from`, on the way along `path` through what
/// waits at the width of the window, with `out` made on that way:
///
/// - the block is whole: `out` is it, and the rest still waits;
/// - `advance` has passed more than four frames at once;
/// - too little waits, and nothing is left to play: all that waits is in the window;
/// - too little waits at that width, and a block of another width follows: the block
///   is begun again there, at the first frame, and what comes of that comes of this.
pub open spec fn runs_along<K: Fn(Taps, u64) -> u32, A: Fn(u64, u64) -> (u64, usize)>(
    kernel: K,
    advance: A,
    ratio: u64,
    frames_per_packet: nat,
    from: ReadPoint,
    r: ProducedView,
    to: ReadPoint,
    path: Seq<(int, u64)>,
    out: Seq<u32>,
) -> bool {
    let ch = from.window.channels as int;
    let s = waiting_at(from.window);
    let rest = rest_at(from.window.play, ch);
    let (q, phase) = path.last();
    &&& read_along(kernel, advance, ratio, ch, s, path, out)
    &&& path[0] == (0int, from.phase)
    &&& 0 <= q * ch <= s.len()
    &&& if path.len() == frames_per_packet + 1 {
        &&& r == ProducedView::Block(out, ch as u8)
        &&& to.window.play.valid()
        &&& to.window.channels == ch
        &&& waiting_at(to.window) == s.skip(q * ch)
        &&& rest_at(to.window.play, ch) == rest
        &&& plays_on_to(from.window.play, to.window.play)
        &&& to.phase == phase
    } else {
        &&& path.len() <= frames_per_packet
        &&& if 4 * ch <= s.len() - q * ch {
            &&& r is Broken
            &&& exists|n: usize| #[trigger]
                call_ensures(advance, (phase, ratio), (to.phase, n)) && n > 4
            &&& to.window.play.valid()
            &&& to.window.channels == ch
            &&& waiting_at(to.window) == s.skip(q * ch)
            &&& rest_at(to.window.play, ch) == rest
            &&& plays_on_to(from.window.play, to.window.play)
        } else if !rest.can_play() {
            &&& r is Dry
            &&& to.window == (WindowView {
                play: rest,
                fifo: s.skip(q * ch),
                channels: ch as nat,
            })
            &&& to.phase == phase
        } else {
            rendered(
                kernel,
                advance,
                ratio,
                frames_per_packet,
                ReadPoint { window: started_over(rest), phase: 0 },
                r,
                to,
            )
        }
    }
}

/// A block is read along what waits at the width of the window, and begun again where
/// the peer turns to another width before it is whole: see [`runs_along`].
pub proof fn block_is_read_or_begun_again<
    K: Fn(Taps, u64) -> u32,
    A: Fn(u64, u64) -> (u64, usize),
>(
    kernel: K,
    advance: A,
    ratio: u64,
    frames_per_packet: nat,
    from: ReadPoint,
    r: ProducedView,
    to: ReadPoint,
) -> (read: (Seq<(int, u64)>, Seq<u32>))
    requires
        rendered(kernel, advance, ratio, frames_per_packet, from, r, to),
        from.window.play.valid(),
        0 < from.window.channels <= 255,
        starts_well(rest_at(from.window.play, from.window.channels as int)),
    ensures
        runs_along(kernel, advance, ratio, frames_per_packet, from, r, to, read.0, read.1),
{
    let ch = from.window.channels as int;
    let (starts, points, frames) = choose|
        starts: Seq<ReadPoint>,
        points: Seq<ReadPoint>,
        frames: Seq<Seq<u32>>,
    | #[trigger]
        rendering(
            kernel,
            advance,
            ratio,
            frames_per_packet,
            from,
            r,
            to,
            starts,
            points,
            frames,
        );
    if starts.len() > 1 {
        second_beginning(kernel, advance, ratio, frames_per_packet, starts);
        let (given, lost) = choose|given: Seq<ReadPoint>, lost: Seq<Seq<u32>>| #[trigger]
            giving_up(
                kernel,
                advance,
                ratio,
                frames_per_packet,
                starts[0],
                starts[1],
                given,
                lost,
            );
        let path = giving_up_is_turning(
            kernel,
            advance,
            ratio,
            frames_per_packet,
            from,
            starts[1],
            given,
            lost,
            ch,
        );
        assert(starts.skip(1).last() == starts.last());
        assert(rendering(
            kernel,
            advance,
            ratio,
            frames_per_packet,
            starts[1],
            r,
            to,
            starts.skip(1),
            points,
            frames,
        ));
        (path, lost.flatten())
    } else {
        assert(starts.last() == from);
        single_beginning(
            kernel,
            advance,
            ratio,
            frames_per_packet,
            from,
            r,
            to,
            starts,
            points,
            frames,
        )
    }
}

proof fn single_beginning<K: Fn(Taps, u64) -> u32, A: Fn(u64, u64) -> (u64, usize)>(
    kernel: K,
    advance: A,
    ratio: u64,
    frames_per_packet: nat,
    from: ReadPoint,
    r: ProducedView,
    to: ReadPoint,
    starts: Seq<ReadPoint>,
    points: Seq<ReadPoint>,
    frames: Seq<Seq<u32>>,
) -> (read: (Seq<(int, u64)>, Seq<u32>))
    requires
        rendering(
            kernel,
            advance,
            ratio,
            frames_per_packet,
            from,
            r,
            to,
            starts,
            points,
            frames,
        ),
        starts.last() == from,
        from.window.play.valid(),
        0 < from.window.channels <= 255,
        starts_well(rest_at(from.window.play, from.window.channels as int)),
    ensures
        runs_along(kernel, advance, ratio, frames_per_packet, from, r, to, read.0, read.1),
{
    let ch = from.window.channels as int;
    let m = frames.len() as int;
    let path = frames_read_along(kernel, advance, ratio, ch, points, frames, m);
    assert(frames.take(m) =~= frames);
    if !(r is Block) {
        failing_leaves_off(advance, ratio, ch, points.last(), r is Dry, to);
        filling_goes_by_width(points.last());
        if r is Broken {
            playing_on_goes_on(
                from.window.play,
                points.last().window.play,
                to.window.play,
            );
        }
    }
    (path, frames.flatten())
}

proof fn run_at_one_width<K: Fn(Taps, u64) -> u32, A: Fn(u64, u64) -> (u64, usize)>(
    kernel: K,
    advance: A,
    ratio: u64,
    frames_per_packet: nat,
    from: ReadPoint,
    r: ProducedView,
    to: ReadPoint,
    ch: int,
    read: (Seq<(int, u64)>, Seq<u32>),
)
    requires
        runs_along(kernel, advance, ratio, frames_per_packet, from, r, to, read.0, read.1),
        0 < ch <= 255,
        from.window.play.valid(),
        one_width(from.window.play, ch),
        from.window.channels == ch,
    ensures
        ({
            let (path, out) = read;
            let s = waiting(from.window);
            let (q, phase) = path.last();
            &&& read_along(kernel, advance, ratio, ch, s, path, out)
            &&& path[0] == (0int, from.phase)
            &&& 0 <= q * ch <= s.len()
            &&& match r {
                ProducedView::Block(block, channels) => {
                    &&& block == out
                    &&& channels == ch
                    &&& path.len() == frames_per_packet + 1
                    &&& waiting(to.window) == s.skip(q * ch)
                    &&& to.phase == phase
                },
                ProducedView::Dry => {
                    &&& path.len() <= frames_per_packet
                    &&& s.len() - q * ch < 4 * ch
                    &&& waiting(to.window) == s.skip(q * ch)
                    &&& to.phase == phase
                },
                ProducedView::Broken => {
                    &&& path.len() <= frames_per_packet
                    &&& exists|n: usize| #[trigger]
                        call_ensures(advance, (phase, ratio), (to.phase, n)) && n > 4
                },
            }
            &&& to.window.play.valid()
            &&& one_width(to.window.play, ch)
            &&& to.window.channels == ch
        }),
{
    one_width_waits(from.window.play, ch);
    rest_is_valid(from.window.play, ch);
    playing_on_keeps_width(from.window.play, rest_at(from.window.play, ch), ch);
    let s = waiting_at(from.window);
    assert(s == waiting(from.window));
    if r is Dry {
        assert(waiting(to.window) =~= to.window.fifo);
    } else {
        playing_on_keeps_width(from.window.play, to.window.play, ch);
        one_width_waits(to.window.play, ch);
    }
}

proof fn rendering_reads<K: Fn(Taps, u64) -> u32, A: Fn(u64, u64) -> (u64, usize)>(
    kernel: K,
    advance: A,
    ratio: u64,
    frames_per_packet: nat,
    from: ReadPoint,
    r: ProducedView,
    to: ReadPoint,
    ch: int,
) -> (read: (Seq<(int, u64)>, Seq<u32>))
    requires
        rendered(kernel, advance, ratio, frames_per_packet, from, r, to),
        0 < ch <= 255,
        from.window.play.valid(),
        one_width(from.window.play, ch),
        from.window.channels == ch,
    ensures
        ({
            let (path, out) = read;
            let s = waiting(from.window);
            let (q, phase) = path.last();
            &&& read_along(kernel, advance, ratio, ch, s, path, out)
            &&& path[0] == (0int, from.phase)
            &&& 0 <= q * ch <= s.len()
            &&& match r {
                ProducedView::Block(block, channels) => {
                    &&& block == out
                    &&& channels == ch
                    &&& path.len() == frames_per_packet + 1
                    &&& waiting(to.window) == s.skip(q * ch)
                    &&& to.phase == phase
                },
                ProducedView::Dry => {
                    &&& path.len() <= frames_per_packet
                    &&& s.len() - q * ch < 4 * ch
                    &&& waiting(to.window) == s.skip(q * ch)
                    &&& to.phase == phase
                },
                ProducedView::Broken => {
                    &&& path.len() <= frames_per_packet
                    &&& exists|n: usize| #[trigger]
                        call_ensures(advance, (phase, ratio), (to.phase, n)) && n > 4
                },
            }
            &&& to.window.play.valid()
            &&& one_width(to.window.play, ch)
            &&& to.window.channels == ch
        }),
{
    one_width_waits(from.window.play, ch);
    rest_is_valid(from.window.play, ch);
    let read = block_is_read_or_begun_again(
        kernel,
        advance,
        ratio,
        frames_per_packet,
        from,
        r,
        to,
    );
    run_at_one_width(kernel, advance, ratio, frames_per_packet, from, r, to, ch, read);
    read
}

/// The resampler starts clean: its playout has primed since the last block.
pub open spec fn starts_clean(v: ResamplerView) -> bool {
    v.window.play.jitter.primed && !v.was_primed
}

/// The ratio that a block is read at: on a clean start, the number one.
pub open spec fn ratio_of_block(v: ResamplerView) -> u64 {
    if starts_clean(v) {
        0x3FF0_0000_0000_0000
    } else {
        v.dll.ratio
    }
}

/// What waits to be read as a block begins: all that has not been read yet, or,
/// on a clean start, all that the playout holds.
pub open spec fn to_be_read(v: ResamplerView) -> Seq<u32> {
    if starts_clean(v) {
        waiting(WindowView { play: v.window.play, fifo: Seq::empty(), channels: 0 })
    } else {
        waiting(v.window)
    }
}

/// The reader has gone along `path` and made `out` on its way, which is what has come
/// of `v`: the block `r`, or nothing; and `after` is where it stands.
pub open spec fn reads_on<K: Fn(Taps, u64) -> u32, A: Fn(u64, u64) -> (u64, usize)>(
    kernel: K,
    advance: A,
    v: ResamplerView,
    r: ProducedView,
    after: ResamplerView,
    ch: int,
    path: Seq<(int, u64)>,
    out: Seq<u32>,
) -> bool {
    let s = to_be_read(v);
    let ratio = ratio_of_block(v);
    let (q, phase) = path.last();
    &&& read_along(kernel, advance, ratio, ch, s, path, out)
    &&& path[0] == (
        0int,
        if starts_clean(v) {
            0
        } else {
            v.phase
        },
    )
    &&& 0 <= q * ch <= s.len()
    &&& match r {
        ProducedView::Block(block, channels) => {
            &&& block == out
            &&& channels == ch
            &&& path.len() == v.frames_per_packet + 1
            &&& 4 * ch <= s.len()
            &&& waiting(after.window) == s.skip(q * ch)
            &&& after.phase == phase
        },
        ProducedView::Dry => {
            &&& path.len() <= v.frames_per_packet || path.len() == 1
            &&& s.len() - q * ch < 4 * ch
            &&& waiting(after.window) == s.skip(q * ch)
            &&& after.phase == phase
        },
        ProducedView::Broken => {
            &&& path.len() <= v.frames_per_packet
            &&& exists|n: usize| #[trigger]
                call_ensures(advance, (phase, ratio), (after.phase, n)) && n > 4
        },
    }
    &&& after.window.play.valid()
    &&& one_width(after.window.play, ch)
    &&& after.window.channels == 0 || after.window.channels == ch
    &&& after.was_primed
    &&& after.frames_per_packet == v.frames_per_packet
    &&& after.set_point == v.set_point
}

/// What a resampler makes of the input of a peer that keeps to `ch` channels. All
/// that waits is one stream of frames, and the resampler reads along it, from its
/// first frame on: sample `c` of every frame that comes out is what the kernel
/// makes of channel `c` of four frames in a row, at the fractional position where
/// the last block ended, and from each position `advance` leads to the next. A
/// block is whole: so many frames come out as belong to it. What then waits to be
/// read is the stream without the frames that have been passed. Nothing comes out
/// where fewer than four frames are left on the way, and not otherwise, unless
/// `advance` passes more than four frames at once.
pub proof fn stream_is_read_in_order<
    K: Fn(Taps, u64) -> u32,
    A: Fn(u64, u64) -> (u64, usize),
    S: Fn(Dll, u128, u64, usize) -> Dll,
>(
    kernel: K,
    advance: A,
    steer: S,
    v: ResamplerView,
    r: ProducedView,
    after: ResamplerView,
    ch: int,
) -> (read: (Seq<(int, u64)>, Seq<u32>))
    requires
        produced(kernel, advance, steer, v, r, after),
        v.window.play.valid(),
        v.window.play.jitter.primed,
        0 < ch,
        one_width(v.window.play, ch),
        v.window.channels == 0 || v.window.channels == ch,
    ensures
        reads_on(kernel, advance, v, r, after, ch, read.0, read.1),
{
    let b = v.begun();
    let s = to_be_read(v);
    let filled = b.point().filled();
    let ratio = b.dll.ratio;
    assert(waiting(b.window) =~= s);
    filling_keeps_what_waits(b.window, ch);
    if b.window.filled().0 is Underrun {
        let path = seq![(0int, b.phase)];
        let out = Seq::<u32>::empty();
        assert(0 * ch == 0);
        assert(s.skip(0) =~= s);
        (path, out)
    } else {
        rendering_reads(
            kernel,
            advance,
            ratio,
            b.frames_per_packet,
            filled,
            r,
            after.point(),
            ch,
        )
    }
}

proof fn frame_ahead(q: int, j: int, ch: int, c: int)
    requires
        0 <= c < ch,
        0 <= q * ch + c,
    ensures
        (q * ch + c) % ch == c,
        ((q + j) * ch + c) % ch == c,
{
    vstd::arithmetic::div_mod::lemma_mod_multiples_vanish(q, c, ch);
    vstd::arithmetic::div_mod::lemma_mod_multiples_vanish(q + j, c, ch);
    vstd::arithmetic::div_mod::lemma_small_mod(c as nat, ch as nat);
    assert(ch * q == q * ch) by (nonlinear_arith);
    assert(ch * (q + j) == (q + j) * ch) by (nonlinear_arith);
}

/// Channel `c` of every frame is at the level `xs[c]`.
pub open spec fn in_place(samples: Seq<u32>, xs: Seq<u32>) -> bool {
    forall|i: int|
        0 <= i < samples.len() ==> #[trigger] samples[i] == xs[i % xs.len() as int]
}

/// `y` is what the kernel makes of four samples `x`, at some position.
pub open spec fn made_of<K: Fn(Taps, u64) -> u32>(kernel: K, x: u32, y: u32) -> bool {
    exists|p: u64| #[trigger] call_ensures(kernel, ((x, x, x, x), p), y)
}

/// Channel `c` of every frame is what the kernel makes of four samples at `xs[c]`.
pub open spec fn made_in_place<K: Fn(Taps, u64) -> u32>(
    kernel: K,
    xs: Seq<u32>,
    samples: Seq<u32>,
) -> bool {
    forall|i: int|
        0 <= i < samples.len() ==> made_of(kernel, xs[i % xs.len() as int], #[trigger] samples[i])
}

proof fn levels_stay_in_place<K: Fn(Taps, u64) -> u32, A: Fn(u64, u64) -> (u64, usize)>(
    kernel: K,
    advance: A,
    v: ResamplerView,
    r: ProducedView,
    after: ResamplerView,
    xs: Seq<u32>,
    path: Seq<(int, u64)>,
    out: Seq<u32>,
)
    requires
        reads_on(kernel, advance, v, r, after, xs.len() as int, path, out),
        0 < xs.len(),
        in_place(to_be_read(v), xs),
    ensures
        r matches ProducedView::Block(block, channels) ==> channels == xs.len() && block.len()
            == v.frames_per_packet * xs.len() && made_in_place(kernel, xs, block) && in_place(
            waiting(after.window),
            xs,
        ),
{
    let ch = xs.len() as int;
    let s = to_be_read(v);
    if let ProducedView::Block(block, channels) = r {
        let fpp = v.frames_per_packet as int;
        assert forall|i: int| 0 <= i < block.len() implies made_of(
            kernel,
            xs[i % xs.len() as int],
            #[trigger] block[i],
        ) by {
            position_cell(i, ch, fpp);
            let k = i / ch;
            let c = i % ch;
            let q = path[k].0;
            assert(sample_read(kernel, ch, s, path[k], c, out[k * ch + c]));
            assert((q + 1) * ch == q * ch + ch) by (nonlinear_arith);
            assert((q + 2) * ch == q * ch + 2 * ch) by (nonlinear_arith);
            assert((q + 3) * ch == q * ch + 3 * ch) by (nonlinear_arith);
            frame_ahead(q, 1, ch, c);
            frame_ahead(q, 2, ch, c);
            frame_ahead(q, 3, ch, c);
            assert(s[q * ch + c] == xs[c]);
            assert(s[(q + 1) * ch + c] == xs[c]);
            assert(s[(q + 2) * ch + c] == xs[c]);
            assert(s[(q + 3) * ch + c] == xs[c]);
            assert(call_ensures(
                kernel,
                ((xs[c], xs[c], xs[c], xs[c]), path[k].1),
                block[i],
            ));
        }
        let q = path.last().0;
        assert forall|i: int| 0 <= i < waiting(after.window).len() implies #[trigger] waiting(
            after.window,
        )[i] == xs[i % xs.len() as int] by {
            assert(waiting(after.window)[i] == s[i + q * ch]);
            vstd::arithmetic::div_mod::lemma_mod_multiples_vanish(q, i, ch);
            assert(ch * q == q * ch) by (nonlinear_arith);
        }
    }
}

/// Channels are kept apart and in place: where in all that waits to be read
/// channel `c` of every frame is at a level of its own, `xs[c]`, for each `c`,
/// sample `c` of every frame of a block is what the kernel makes of four samples
/// at `xs[c]`, and the levels stand in the same channels of what waits afterwards.
pub proof fn channels_are_kept_in_place<
    K: Fn(Taps, u64) -> u32,
    A: Fn(u64, u64) -> (u64, usize),
    S: Fn(Dll, u128, u64, usize) -> Dll,
>(
    kernel: K,
    advance: A,
    steer: S,
    v: ResamplerView,
    r: ProducedView,
    after: ResamplerView,
    xs: Seq<u32>,
)
    requires
        produced(kernel, advance, steer, v, r, after),
        v.window.play.valid(),
        v.window.play.jitter.primed,
        0 < xs.len(),
        one_width(v.window.play, xs.len() as int),
        v.window.channels == 0 || v.window.channels == xs.len(),
        in_place(to_be_read(v), xs),
    ensures
        r matches ProducedView::Block(block, channels) ==> channels == xs.len() && block.len()
            == v.frames_per_packet * xs.len() && made_in_place(kernel, xs, block) && in_place(
            waiting(after.window),
            xs,
        ),
{
    let ch = xs.len() as int;
    let (path, out) = stream_is_read_in_order(kernel, advance, steer, v, r, after, ch);
    levels_stay_in_place(kernel, advance, v, r, after, xs, path, out);
}

proof fn steps_hand_through<K: Fn(Taps, u64) -> u32, A: Fn(u64, u64) -> (u64, usize)>(
    kernel: K,
    advance: A,
    v: ResamplerView,
    r: ProducedView,
    after: ResamplerView,
    ch: int,
    path: Seq<(int, u64)>,
    out: Seq<u32>,
)
    requires
        reads_on(kernel, advance, v, r, after, ch, path, out),
        0 < ch,
        forall|t: Taps, p: u64, y: u32| #[trigger]
            call_ensures(kernel, (t, p), y) ==> y == t.1,
        forall|p: u64, f: u64, q: u64, n: usize| #[trigger]
            call_ensures(advance, (p, f), (q, n)) ==> n == 1,
    ensures
        !(r is Broken),
        r is Block <==> v.frames_per_packet == 0 && 4 * ch <= to_be_read(v).len()
            || v.frames_per_packet > 0 && (v.frames_per_packet + 3) * ch <= to_be_read(v).len(),
        r matches ProducedView::Block(block, channels) ==> {
            let n = v.frames_per_packet * ch;
            &&& channels == ch
            &&& 0 <= n
            &&& ch + n <= to_be_read(v).len() || n == 0
            &&& block.len() == n
            &&& forall|i: int| 0 <= i < n ==> #[trigger] block[i] == to_be_read(v)[ch + i]
            &&& waiting(after.window) == to_be_read(v).skip(n)
        },
{
    let s = to_be_read(v);
    let fpp = v.frames_per_packet as int;
    let m = path.len() - 1;
    one_frame_a_step(kernel, advance, ratio_of_block(v), ch, s, path, out, m);
    assert(path[m] == path.last());
    assert(0 <= fpp * ch) by (nonlinear_arith)
        requires
            0 <= fpp,
            0 < ch,
    ;
    assert((fpp + 3) * ch == fpp * ch + 3 * ch) by (nonlinear_arith);
    if let ProducedView::Block(block, channels) = r {
        if fpp > 0 {
            let k = fpp - 1;
            assert(sample_read(kernel, ch, s, path[k], ch - 1, out[k * ch + (ch - 1)]));
            one_frame_a_step(kernel, advance, ratio_of_block(v), ch, s, path, out, k);
            assert((k + 3) * ch == fpp * ch + 2 * ch) by (nonlinear_arith)
                requires
                    k == fpp - 1,
            ;
        } else {
            assert(fpp * ch == 0);
        }
        assert forall|i: int| 0 <= i < fpp * ch implies #[trigger] block[i] == s[ch + i] by {
            position_cell(i, ch, fpp);
            let k = i / ch;
            let c = i % ch;
            assert(sample_read(kernel, ch, s, path[k], c, out[k * ch + c]));
            one_frame_a_step(kernel, advance, ratio_of_block(v), ch, s, path, out, k);
            assert((k + 1) * ch == k * ch + ch) by (nonlinear_arith);
        }
    } else if r is Dry {
        if m > 0 {
            assert(fpp * ch >= m * ch + ch) by (nonlinear_arith)
                requires
                    fpp >= m + 1,
                    0 < ch,
            ;
        } else {
            assert(m == 0 && 0 * ch == 0);
            if fpp > 0 {
                assert(fpp * ch >= ch) by (nonlinear_arith)
                    requires
                        fpp >= 1,
                        0 < ch,
                ;
            }
        }
    }
}

/// A kernel that gives the second of its samples back, and a position that moves on
/// by one whole frame each time, hand the input through: a block is what stands
/// behind the first frame of what waits to be read, sample by sample, for every
/// channel count, and afterwards the same waits without the frames of the block.
/// So block after block the input comes out as it went in.
pub proof fn input_is_handed_through<
    K: Fn(Taps, u64) -> u32,
    A: Fn(u64, u64) -> (u64, usize),
    S: Fn(Dll, u128, u64, usize) -> Dll,
>(
    kernel: K,
    advance: A,
    steer: S,
    v: ResamplerView,
    r: ProducedView,
    after: ResamplerView,
    ch: int,
)
    requires
        produced(kernel, advance, steer, v, r, after),
        v.window.play.valid(),
        v.window.play.jitter.primed,
        0 < ch,
        one_width(v.window.play, ch),
        v.window.channels == 0 || v.window.channels == ch,
        forall|t: Taps, p: u64, y: u32| #[trigger]
            call_ensures(kernel, (t, p), y) ==> y == t.1,
        forall|p: u64, f: u64, q: u64, n: usize| #[trigger]
            call_ensures(advance, (p, f), (q, n)) ==> n == 1,
    ensures
        !(r is Broken),
        r is Block <==> v.frames_per_packet == 0 && 4 * ch <= to_be_read(v).len()
            || v.frames_per_packet > 0 && (v.frames_per_packet + 3) * ch <= to_be_read(v).len(),
        r matches ProducedView::Block(block, channels) ==> {
            let n = v.frames_per_packet * ch;
            &&& channels == ch
            &&& 0 <= n
            &&& ch + n <= to_be_read(v).len() || n == 0
            &&& block.len() == n
            &&& forall|i: int| 0 <= i < n ==> #[trigger] block[i] == to_be_read(v)[ch + i]
            &&& waiting(after.window) == to_be_read(v).skip(n)
        },
{
    let (path, out) = stream_is_read_in_order(kernel, advance, steer, v, r, after, ch);
    steps_hand_through(kernel, advance, v, r, after, ch, path, out);
}

proof fn one_frame_a_step<K: Fn(Taps, u64) -> u32, A: Fn(u64, u64) -> (u64, usize)>(
    kernel: K,
    advance: A,
    ratio: u64,
    ch: int,
    s: Seq<u32>,
    path: Seq<(int, u64)>,
    out: Seq<u32>,
    k: int,
)
    requires
        read_along(kernel, advance, ratio, ch, s, path, out),
        path[0].0 == 0,
        forall|p: u64, f: u64, q: u64, n: usize| #[trigger]
            call_ensures(advance, (p, f), (q, n)) ==> n == 1,
        0 <= k < path.len(),
    ensures
        path[k].0 == k,
    decreases k,
{
    if k > 0 {
        one_frame_a_step(kernel, advance, ratio, ch, s, path, out, k - 1);
        assert(leads_to(advance, ratio, path[k - 1], path[k - 1 + 1]));
    }
}

/// Before its playout has primed a resampler comes up with nothing, and holds what
/// it held. The first block after the playout has primed starts clean.
pub proof fn nothing_comes_before_the_cushion<
    K: Fn(Taps, u64) -> u32,
    A: Fn(u64, u64) -> (u64, usize),
    S: Fn(Dll, u128, u64, usize) -> Dll,
>(kernel: K, advance: A, steer: S, v: ResamplerView, r: ProducedView, after: ResamplerView)
    requires
        produced(kernel, advance, steer, v, r, after),
        !v.window.play.jitter.primed,
    ensures
        r is Dry,
        after == (ResamplerView { was_primed: false, ..v }),
        forall|p: PacketView|
            (#[trigger] after.inserted(p)).window.play.jitter.primed ==> starts_clean(
                after.inserted(p),
            ),
{
}

/// The loop is steered once for each block that comes out and not otherwise: by the
/// state that it was in, or that of a clean start, the frames in packets and in the
/// window as the window had been filled for the first frame, the fractional
/// position there, and the target depth.
pub proof fn loop_is_steered_once_a_block<
    K: Fn(Taps, u64) -> u32,
    A: Fn(u64, u64) -> (u64, usize),
    S: Fn(Dll, u128, u64, usize) -> Dll,
>(kernel: K, advance: A, steer: S, v: ResamplerView, r: ProducedView, after: ResamplerView)
    requires
        produced(kernel, advance, steer, v, r, after),
        v.window.play.jitter.primed,
    ensures
        ({
            let dll = if starts_clean(v) {
                (Dll { ratio: 0x3FF0_0000_0000_0000, integ: 0, err_filt: 0 })
            } else {
                v.dll
            };
            let from = if starts_clean(v) {
                ReadPoint {
                    window: WindowView {
                        play: v.window.play,
                        fifo: Seq::empty(),
                        channels: 0,
                    },
                    phase: 0,
                }
            } else {
                ReadPoint { window: v.window, phase: v.phase }
            };
            let w = from.filled().window;
            if r is Block {
                call_ensures(
                    steer,
                    (
                        dll,
                        (w.play.jitter.filled() * v.frames_per_packet + w.fifo.len()
                            / w.channels) as u128,
                        from.filled().phase,
                        v.set_point as usize,
                    ),
                    after.dll,
                )
            } else {
                after.dll == dll
            }
        }),
{
    let b = v.begun();
    if starts_clean(v) {
        assert(b.window.fifo =~= Seq::empty());
    }
}

/// A block of another width than the window's starts the window over: it holds the
/// block from then on, behind a copy of its first frame, and nothing of what stood
/// in it; and reading goes on at the first frame.
pub proof fn another_width_starts_the_window_over(point: ReadPoint)
    requires
        point.window.play.valid(),
        point.window.channels > 0,
        point.window.fifo.len() < 4 * point.window.channels,
        point.window.play.can_play(),
        point.window.play.next_block().1 != point.window.channels,
        0 < point.window.play.next_block().1 <= point.window.play.next_block().0.len(),
    ensures
        ({
            let b = point.window.play.next_block();
            let over = WindowView {
                play: point.window.play.played(),
                fifo: b.0.take(b.1 as int) + b.0,
                channels: b.1 as nat,
            };
            &&& point.filled().phase == 0
            &&& point.filled().window == over.filled().1
            &&& point.window.filled().0 == over.filled().0
        }),
{
    passing_bound(4, point.window.channels as int, point.window.fifo.len() as int);
}

/// A packet that arrives goes to the playout and changes nothing else, but where
/// the stream has lost its place: the next block then starts clean.
pub proof fn arrival_goes_to_the_playout(v: ResamplerView, p: PacketView)
    ensures
        v.inserted(p).window.play == v.window.play.inserted(p),
        v.inserted(p).window.fifo == v.window.fifo,
        v.inserted(p).window.channels == v.window.channels,
        v.inserted(p).phase == v.phase,
        v.inserted(p).dll == v.dll,
        v.inserted(p).frames_per_packet == v.frames_per_packet,
        v.inserted(p).set_point == v.set_point,
        v.inserted(p).was_primed <==> v.was_primed && !v.window.play.jitter.is_desync(p.seq),
{
}

/// A block begins where reading stands: at the window as it was left, or, on a clean
/// start, at an empty one and its first frame. The window is filled first; where that
/// fails nothing comes, and otherwise what comes is read from there on, at the ratio
/// of the block.
pub proof fn block_begins_where_reading_stands<
    K: Fn(Taps, u64) -> u32,
    A: Fn(u64, u64) -> (u64, usize),
    S: Fn(Dll, u128, u64, usize) -> Dll,
>(kernel: K, advance: A, steer: S, v: ResamplerView, r: ProducedView, after: ResamplerView)
    requires
        produced(kernel, advance, steer, v, r, after),
        v.window.play.jitter.primed,
    ensures
        ({
            let from = if starts_clean(v) {
                ReadPoint {
                    window: WindowView {
                        play: v.window.play,
                        fifo: Seq::empty(),
                        channels: 0,
                    },
                    phase: 0,
                }
            } else {
                ReadPoint { window: v.window, phase: v.phase }
            };
            let to = ReadPoint { window: after.window, phase: after.phase };
            &&& from.window.filled().0 is Underrun ==> r is Dry && to == from.filled()
            &&& from.window.filled().0 is Broken ==> r is Broken && to == from.filled()
            &&& from.window.filled().0 is Ready ==> rendered(
                kernel,
                advance,
                ratio_of_block(v),
                v.frames_per_packet,
                from.filled(),
                r,
                to,
            )
            &&& after.was_primed
            &&& after.frames_per_packet == v.frames_per_packet
            &&& after.set_point == v.set_point
        }),
{
    let b = v.begun();
    if starts_clean(v) {
        assert(b.window.fifo =~= Seq::empty());
    }
}

/// An empty window is filled with the next block, behind a copy of its first frame,
/// and with what follows. Without a block nothing happens; a block without a whole
/// frame is passed over, and cannot be read, whether the window is empty or of another
/// width.
pub proof fn empty_window_starts_with_the_next_block(w: WindowView)
    requires
        w.play.valid(),
        w.channels == 0 || (w.fifo.len() < 4 * w.channels && w.play.can_play()
            && w.play.next_block().1 != w.channels),
    ensures
        ({
            let b = w.play.next_block();
            &&& !w.play.can_play() ==> w.filled() == (Fill::Underrun, w)
            &&& w.play.can_play() && 0 < b.1 <= b.0.len() ==> w.filled() == started_over(
                w.play,
            ).filled()
            &&& w.play.can_play() && !(0 < b.1 <= b.0.len()) ==> w.filled() == (
                Fill::Broken,
                WindowView { play: w.play.played(), fifo: w.fifo, channels: w.channels },
            )
        }),
{
    if w.channels > 0 {
        passing_bound(4, w.channels as int, w.fifo.len() as int);
    }
    playing_uses_up_the_reserve(w.play);
}

} // verus!
