//! Slot-indexed jitter buffer.
//!
//! Packets are stored at `seq % SLOTS` so out-of-order arrivals land in the
//! right place without sorting. The drain side advances the read pointer at the
//! packet rate regardless of whether a packet arrived (missing packets are
//! silence).
//!
//! Seen from outside, the buffer is a window of `SLOTS` places that starts at
//! the sequence number to be played next: place `k` holds the packet numbered
//! `read_seq + k`, if it has arrived.

use vstd::prelude::*;
use crate::packet::{AudioPacket, PacketView};

verus! {

/// Places in the window; about 340 ms of 64-frame packets. Divides the range of
/// sequence numbers, so a number has one slot across the wrap.
pub const SLOTS: usize = 256;

/// The samples of one packet and their channel count.
pub type BlockView = (Seq<u32>, u8);

pub struct JitterBuffer {
    slots: Vec<Option<(Vec<u32>, u8)>>,
    read_seq: u32,
    filled: usize,
    prime: usize,
    /// Enough packets have been buffered for playout to run.
    pub primed: bool,
}

/// What a [`JitterBuffer`] holds.
pub struct JitterView {
    /// Place `k` holds what has arrived of sequence number `read_seq + k`.
    pub window: Seq<Option<BlockView>>,
    /// The sequence number to be played next.
    pub read_seq: u32,
    /// Packets to buffer before playout starts.
    pub prime: nat,
    pub primed: bool,
}

/// How many places of `window` are taken.
pub open spec fn count(window: Seq<Option<BlockView>>) -> nat
    decreases window.len(),
{
    if window.len() == 0 {
        0
    } else {
        count(window.drop_last()) + if window.last() is Some {
            1nat
        } else {
            0nat
        }
    }
}

/// How far `seq` lies ahead of `from`, round the wrap of the sequence numbers.
pub open spec fn distance(from: u32, seq: u32) -> int {
    (seq - from) % 0x1_0000_0000
}

/// The sequence number behind `seq`.
pub open spec fn successor(seq: u32) -> u32 {
    ((seq + 1) % 0x1_0000_0000) as u32
}

/// A window in which nothing has arrived.
pub open spec fn empty_window() -> Seq<Option<BlockView>> {
    Seq::new(SLOTS as nat, |k: int| None)
}

impl PacketView {
    /// The block that a packet carries.
    pub open spec fn block(self) -> BlockView {
        (self.samples, self.channels)
    }
}

impl JitterView {
    /// The buffer before anything has arrived.
    pub open spec fn fresh(prime: nat) -> JitterView {
        JitterView {
            window: empty_window(),
            read_seq: 0,
            prime: if prime < 1 {
                1
            } else if prime > SLOTS / 2 {
                (SLOTS / 2) as nat
            } else {
                prime
            },
            primed: false,
        }
    }

    /// Packets held.
    pub open spec fn filled(self) -> nat {
        count(self.window)
    }

    /// The sequence number that the window starts at once `seq` has arrived:
    /// the first packet of a stream anchors it.
    pub open spec fn anchor(self, seq: u32) -> u32 {
        if self.filled() == 0 && !self.primed {
            seq
        } else {
            self.read_seq
        }
    }

    /// `seq` has its place in the window.
    pub open spec fn in_window(self, seq: u32) -> bool {
        distance(self.anchor(seq), seq) < SLOTS
    }

    /// `seq` has been passed by at most a window: a late arrival.
    pub open spec fn is_late(self, seq: u32) -> bool {
        distance(self.anchor(seq), seq) >= 0x1_0000_0000 - SLOTS
    }

    /// `seq` is so far off that the streams have lost each other.
    pub open spec fn is_desync(self, seq: u32) -> bool {
        !self.in_window(seq) && !self.is_late(seq)
    }

    /// The buffer once `p` has arrived.
    pub open spec fn inserted(self, p: PacketView) -> JitterView {
        if self.in_window(p.seq) {
            let window = self.window.update(
                distance(self.anchor(p.seq), p.seq),
                Some(p.block()),
            );
            JitterView {
                window,
                read_seq: self.anchor(p.seq),
                prime: self.prime,
                primed: self.primed || count(window) >= self.prime,
            }
        } else if self.is_late(p.seq) {
            self
        } else {
            JitterView {
                window: empty_window().update(0, Some(p.block())),
                read_seq: p.seq,
                prime: self.prime,
                primed: false,
            }
        }
    }

    /// The buffer once the next place has been played.
    pub open spec fn drained(self) -> JitterView {
        JitterView {
            window: self.window.drop_first().push(None),
            read_seq: successor(self.read_seq),
            prime: self.prime,
            primed: self.primed,
        }
    }

    /// What every buffer keeps.
    pub open spec fn valid(self) -> bool {
        &&& self.window.len() == SLOTS
        &&& 1 <= self.prime <= SLOTS / 2
    }
}

proof fn count_bounds(w: Seq<Option<BlockView>>)
    ensures
        count(w) <= w.len(),
    decreases w.len(),
{
    if w.len() > 0 {
        count_bounds(w.drop_last());
    }
}

proof fn count_update(w: Seq<Option<BlockView>>, i: int, v: Option<BlockView>)
    requires
        0 <= i < w.len(),
    ensures
        count(w.update(i, v)) + (if w[i] is Some {
            1nat
        } else {
            0nat
        }) == count(w) + (if v is Some {
            1nat
        } else {
            0nat
        }),
    decreases w.len(),
{
    let u = w.update(i, v);
    if i == w.len() - 1 {
        assert(u.drop_last() =~= w.drop_last());
    } else {
        count_update(w.drop_last(), i, v);
        assert(u.drop_last() =~= w.drop_last().update(i, v));
    }
}

proof fn count_drop_first(w: Seq<Option<BlockView>>)
    requires
        w.len() > 0,
    ensures
        count(w) == count(w.drop_first()) + (if w[0] is Some {
            1nat
        } else {
            0nat
        }),
    decreases w.len(),
{
    if w.len() > 1 {
        count_drop_first(w.drop_last());
        assert(w.drop_first().drop_last() =~= w.drop_last().drop_first());
    } else {
        assert(w.drop_last() =~= Seq::empty());
        assert(w.drop_first() =~= Seq::empty());
    }
}

proof fn count_drained(w: Seq<Option<BlockView>>)
    requires
        w.len() > 0,
    ensures
        count(w.drop_first().push(None)) + (if w[0] is Some {
            1nat
        } else {
            0nat
        }) == count(w),
{
    count_drop_first(w);
    assert(w.drop_first().push(None).drop_last() =~= w.drop_first());
}

proof fn count_none(w: Seq<Option<BlockView>>)
    requires
        forall|i: int| 0 <= i < w.len() ==> w[i] is None,
    ensures
        count(w) == 0,
    decreases w.len(),
{
    if w.len() > 0 {
        count_none(w.drop_last());
    }
}

proof fn count_zero(w: Seq<Option<BlockView>>)
    requires
        count(w) == 0,
    ensures
        forall|i: int| 0 <= i < w.len() ==> w[i] is None,
    decreases w.len(),
{
    if w.len() > 0 {
        count_zero(w.drop_last());
        assert forall|i: int| 0 <= i < w.len() implies w[i] is None by {
            if i < w.len() - 1 {
                assert(w.drop_last()[i] is None);
            }
        }
    }
}

/// The view of one slot.
spec fn slot_view(slot: Option<(Vec<u32>, u8)>) -> Option<BlockView> {
    match slot {
        Some(b) => Some((b.0@, b.1)),
        None => None,
    }
}

/// The slot of place `k` of a window that starts at `from`.
#[verifier::opaque]
spec fn slot_of(from: u32, k: int) -> int {
    (from + k) % 256
}

proof fn slot_bounds(from: u32, k: int)
    ensures
        0 <= slot_of(from, k) < SLOTS,
{
    reveal(slot_of);
}

/// Two places of a window have two slots.
proof fn slots_apart(from: u32, j: int, k: int)
    requires
        0 <= j < SLOTS,
        0 <= k < SLOTS,
        slot_of(from, j) == slot_of(from, k),
    ensures
        j == k,
{
    reveal(slot_of);
}

/// What stands in the window that starts at `from`, place by place.
spec fn window_of(slots: Seq<Option<(Vec<u32>, u8)>>, from: u32) -> Seq<Option<BlockView>> {
    Seq::new(SLOTS as nat, |k: int| slot_view(slots[slot_of(from, k)]))
}

/// What is written to a slot stands in its place, and nowhere else.
proof fn window_update(
    slots: Seq<Option<(Vec<u32>, u8)>>,
    from: u32,
    k: int,
    slot: Option<(Vec<u32>, u8)>,
)
    requires
        slots.len() == SLOTS,
        0 <= k < SLOTS,
    ensures
        window_of(slots.update(slot_of(from, k), slot), from) == window_of(slots, from).update(
            k,
            slot_view(slot),
        ),
{
    let idx = slot_of(from, k);
    slot_bounds(from, k);
    let after = window_of(slots.update(idx, slot), from);
    let want = window_of(slots, from).update(k, slot_view(slot));
    assert forall|j: int| 0 <= j < SLOTS implies after[j] == want[j] by {
        slot_bounds(from, j);
        if slot_of(from, j) == idx {
            slots_apart(from, j, k);
        }
    }
    assert(after =~= want);
}

/// A window that starts one further has one place more at its end.
proof fn window_moves(slots: Seq<Option<(Vec<u32>, u8)>>, from: u32)
    requires
        slots.len() == SLOTS,
    ensures
        window_of(slots, successor(from)) == window_of(slots, from).drop_first().push(
            window_of(slots, from)[0],
        ),
{
    let after = window_of(slots, successor(from));
    let before = window_of(slots, from);
    assert forall|k: int| 0 <= k < SLOTS implies after[k] == before.drop_first().push(
        before[0],
    )[k] by {
        reveal(slot_of);
        if k < SLOTS - 1 {
            assert(slot_of(successor(from), k) == slot_of(from, k + 1));
        } else {
            assert(slot_of(successor(from), k) == slot_of(from, 0));
        }
    }
    assert(after =~= before.drop_first().push(before[0]));
}

/// Empty slots make an empty window, wherever it starts.
proof fn window_is_empty(slots: Seq<Option<(Vec<u32>, u8)>>, from: u32)
    requires
        slots.len() == SLOTS,
        forall|i: int| 0 <= i < SLOTS ==> slots[i] is None,
    ensures
        window_of(slots, from) == empty_window(),
{
    assert forall|k: int| 0 <= k < SLOTS implies window_of(slots, from)[k] == empty_window()[k] by {
        slot_bounds(from, k);
    }
    assert(window_of(slots, from) =~= empty_window());
}

/// A window in which nothing stands has empty slots.
proof fn slots_are_empty(slots: Seq<Option<(Vec<u32>, u8)>>, from: u32)
    requires
        slots.len() == SLOTS,
        count(window_of(slots, from)) == 0,
    ensures
        forall|i: int| 0 <= i < SLOTS ==> slots[i] is None,
{
    let window = window_of(slots, from);
    count_zero(window);
    assert forall|i: int| 0 <= i < SLOTS implies slots[i] is None by {
        reveal(slot_of);
        let k = (i - from) % 256;
        assert(slot_of(from, k) == i);
        assert(window[k] is None);
    }
}

impl JitterBuffer {
    /// What stands in the window, place by place.
    pub closed spec fn view(&self) -> JitterView {
        JitterView {
            window: window_of(self.slots@, self.read_seq),
            read_seq: self.read_seq,
            prime: self.prime as nat,
            primed: self.primed,
        }
    }

    /// The bookkeeping agrees with the slots.
    pub closed spec fn wf(&self) -> bool {
        &&& self.slots@.len() == SLOTS
        &&& self.filled == count(self.view().window)
        &&& self.view().valid()
    }

    /// `prime` is how many packets to buffer before playout begins: the playout
    /// latency cushion, in packets. It is held between one packet and half the
    /// window.
    pub fn new(prime: usize) -> (jb: JitterBuffer)
        ensures
            jb.wf(),
            jb.view() == JitterView::fresh(prime as nat),
    {
        let half: usize = SLOTS / 2;
        let prime: usize = if prime < 1 {
            1
        } else if prime > half {
            half
        } else {
            prime
        };
        let mut slots: Vec<Option<(Vec<u32>, u8)>> = Vec::new();
        while slots.len() < SLOTS
            invariant
                slots.len() <= SLOTS,
                forall|i: int| 0 <= i < slots.len() ==> slots@[i] is None,
            decreases SLOTS - slots.len(),
        {
            slots.push(None);
        }
        let jb = JitterBuffer { slots, read_seq: 0, filled: 0, prime, primed: false };
        proof {
            window_is_empty(jb.slots@, 0);
            count_none(jb.view().window);
        }
        jb
    }

    /// Takes in an incoming packet. Recent-but-late packets are dropped; a packet
    /// that lands far outside the window in either direction means the streams
    /// have desynced (a stall, loss burst, or the peer restarting): the buffer
    /// resyncs to it and re-primes rather than wedging forever. Returns `true` on
    /// resync.
    pub fn insert(&mut self, pkt: AudioPacket) -> (resynced: bool)
        requires
            old(self).wf(),
        ensures
            final(self).wf(),
            final(self).view() == old(self).view().inserted(pkt@),
            resynced == old(self).view().is_desync(pkt.seq),
    {
        // On the very first packet, anchor the read head.
        self.anchor(pkt.seq);
        let ahead: u32 = pkt.seq.wrapping_sub(self.read_seq);
        assert(ahead == distance(self.read_seq, pkt.seq));
        if ahead >= SLOTS as u32 {
            if ahead > u32::MAX - SLOTS as u32 {
                return false;  // recently drained or reordered: just drop it
            }
            self.resync(pkt);
            return true;
        }
        self.store(pkt);
        false
    }

    /// Starts the window at `seq` where nothing has arrived yet.
    fn anchor(&mut self, seq: u32)
        requires
            old(self).wf(),
        ensures
            final(self).wf(),
            final(self).view() == (JitterView {
                read_seq: old(self).view().anchor(seq),
                ..old(self).view()
            }),
    {
        if self.filled == 0 && !self.primed {
            proof {
                slots_are_empty(self.slots@, self.read_seq);
                window_is_empty(self.slots@, self.read_seq);
                window_is_empty(self.slots@, seq);
            }
            self.read_seq = seq;
        }
    }

    /// Puts a packet into its place in the window.
    fn store(&mut self, pkt: AudioPacket)
        requires
            old(self).wf(),
            distance(old(self).view().read_seq, pkt.seq) < SLOTS,
        ensures
            final(self).wf(),
            ({
                let v = old(self).view();
                let window = v.window.update(distance(v.read_seq, pkt.seq), Some(pkt@.block()));
                final(self).view() == (JitterView {
                    window,
                    primed: v.primed || count(window) >= v.prime,
                    ..v
                })
            }),
    {
        let ghost window = self.view().window;
        let ghost ahead = distance(self.read_seq, pkt.seq);
        let ghost slots = self.slots@;
        let idx: usize = pkt.seq as usize % SLOTS;
        proof {
            assert(slot_of(self.read_seq, ahead) == idx) by {
                reveal(slot_of);
            }
            assert(window[ahead] == slot_view(slots[idx as int]));
            count_update(window, ahead, Some(pkt@.block()));
            count_bounds(window.update(ahead, Some(pkt@.block())));
            count_bounds(window);
        }
        if self.slots[idx].is_none() {
            self.filled = self.filled + 1;
        }
        let block = Some((pkt.samples, pkt.channels));
        proof {
            window_update(slots, self.read_seq, ahead, block);
        }
        self.slots[idx] = block;
        assert(self.slots@ =~= slots.update(idx as int, block));
        if !self.primed && self.filled >= self.prime {
            self.primed = true;
        }
    }

    /// Discards buffered audio and re-anchors on `pkt`, then re-primes. Costs a
    /// brief silence but recovers a stuck stream.
    fn resync(&mut self, pkt: AudioPacket)
        requires
            old(self).wf(),
        ensures
            final(self).wf(),
            final(self).view() == (JitterView {
                window: empty_window().update(0, Some(pkt@.block())),
                read_seq: pkt.seq,
                prime: old(self).view().prime,
                primed: false,
            }),
    {
        let mut i: usize = 0;
        while i < SLOTS
            invariant
                i <= SLOTS,
                self.slots@.len() == SLOTS,
                self.prime == old(self).prime,
                forall|k: int| 0 <= k < i ==> self.slots@[k] is None,
            decreases SLOTS - i,
        {
            self.slots[i] = None;
            i = i + 1;
        }
        self.read_seq = pkt.seq;
        let idx: usize = pkt.seq as usize % SLOTS;
        let ghost slots = self.slots@;
        let block = Some((pkt.samples, pkt.channels));
        proof {
            assert(slot_of(pkt.seq, 0) == idx) by {
                reveal(slot_of);
            }
            window_is_empty(slots, pkt.seq);
            window_update(slots, pkt.seq, 0, block);
            count_none(empty_window());
            count_update(empty_window(), 0, Some(pkt@.block()));
        }
        self.slots[idx] = block;
        assert(self.slots@ =~= slots.update(idx as int, block));
        self.filled = 1;
        self.primed = false;
    }

    /// Drains the next packet in sequence order: its samples and channel count,
    /// or `None` on loss (the caller writes silence). Always advances the read
    /// pointer.
    pub fn drain_next(&mut self) -> (r: Option<(Vec<u32>, u8)>)
        requires
            old(self).wf(),
        ensures
            final(self).wf(),
            final(self).view() == old(self).view().drained(),
            match r {
                Some(b) => old(self).view().window[0] == Some((b.0@, b.1)),
                None => old(self).view().window[0] is None,
            },
    {
        let ghost before = self.view();
        let ghost slots = self.slots@;
        let ghost from = self.read_seq;
        let idx: usize = self.read_seq as usize % SLOTS;
        proof {
            assert(slot_of(from, 0) == idx) by {
                reveal(slot_of);
            }
            assert(before.window[0] == slot_view(slots[idx as int]));
            count_drained(before.window);
        }
        let result = self.slots[idx].take();
        if result.is_some() && self.filled > 0 {
            self.filled = self.filled - 1;
        }
        self.read_seq = self.read_seq.wrapping_add(1);
        proof {
            assert(self.slots@ =~= slots.update(idx as int, None));
            window_update(slots, from, 0, None);
            window_moves(self.slots@, from);
            assert(self.view().window =~= before.drained().window);
        }
        result
    }

    /// The length and channel count of what [`JitterBuffer::drain_next`] would
    /// hand out; `None` on loss.
    pub fn peek_shape(&self) -> (r: Option<(usize, u8)>)
        requires
            self.wf(),
        ensures
            match r {
                Some(s) => {
                    &&& self.view().window[0] is Some
                    &&& s.0 == (self.view().window[0]->0).0.len()
                    &&& s.1 == (self.view().window[0]->0).1
                },
                None => self.view().window[0] is None,
            },
    {
        let idx: usize = self.read_seq as usize % SLOTS;
        assert(slot_of(self.read_seq, 0) == idx) by {
            reveal(slot_of);
        }
        assert(self.view().window[0] == slot_view(self.slots@[idx as int]));
        match &self.slots[idx] {
            Some((samples, channels)) => Some((samples.len(), *channels)),
            None => None,
        }
    }

    /// Enough packets have been buffered for playout to run.
    pub fn is_primed(&self) -> (r: bool)
        ensures
            r == self.view().primed,
    {
        self.primed
    }

    /// Packets held.
    pub fn buffered_packets(&self) -> (n: usize)
        requires
            self.wf(),
        ensures
            n == self.view().filled(),
    {
        self.filled
    }
}

/// What taking in a packet did.
pub struct Ingest {
    /// The buffer lost its place and started over at this packet.
    pub resynced: bool,
    /// This packet completed the cushion: playout starts.
    pub newly_primed: bool,
}

/// What a [`Playout`] holds.
pub struct PlayoutView {
    pub jitter: JitterView,
    /// Length and channel count of the block played last.
    pub shape: Option<(nat, u8)>,
}

/// A block of silence: the sample pattern zero, `n` times.
pub open spec fn silence(n: nat) -> Seq<u32> {
    Seq::new(n, |i: int| 0u32)
}

/// The number of places up to and with the last one taken.
pub open spec fn span(window: Seq<Option<BlockView>>) -> nat
    decreases window.len(),
{
    if window.len() == 0 {
        0
    } else if window.last() is Some {
        window.len()
    } else {
        span(window.drop_last())
    }
}

impl PlayoutView {
    pub open spec fn fresh(prime: nat) -> PlayoutView {
        PlayoutView { jitter: JitterView::fresh(prime), shape: None }
    }

    /// Until a block has been played the next place is taken, unless nothing has
    /// arrived at all.
    pub open spec fn valid(self) -> bool {
        &&& self.jitter.valid()
        &&& self.shape is None ==> {
            ||| self.jitter.filled() == 0 && !self.jitter.primed
            ||| self.jitter.window[0] is Some
        }
    }

    pub open spec fn inserted(self, p: PacketView) -> PlayoutView {
        PlayoutView { jitter: self.jitter.inserted(p), shape: self.shape }
    }

    /// There is a block to play: the cushion is complete and the buffer has not
    /// run dry.
    pub open spec fn can_play(self) -> bool {
        self.jitter.primed && self.jitter.filled() > 0
    }

    /// The block that is played next: the packet at the read pointer, or, where
    /// it is missing, silence of the shape of the block before.
    pub open spec fn next_block(self) -> BlockView {
        match self.jitter.window[0] {
            Some(b) => b,
            None => (silence((self.shape->0).0), (self.shape->0).1),
        }
    }

    /// The playout once that block has been played.
    pub open spec fn played(self) -> PlayoutView {
        PlayoutView {
            jitter: self.jitter.drained(),
            shape: Some((self.next_block().0.len(), self.next_block().1)),
        }
    }

    /// Blocks that can be played before another packet has to arrive.
    pub open spec fn reserve(self) -> nat {
        span(self.jitter.window)
    }
}

proof fn span_drained(w: Seq<Option<BlockView>>)
    requires
        w.len() > 0,
    ensures
        span(w.drop_first().push(None)) == (if span(w) > 0 {
            (span(w) - 1) as nat
        } else {
            0
        }),
{
    assert(w.drop_first().push(None).drop_last() =~= w.drop_first());
    span_drop_first(w);
}

proof fn span_drop_first(w: Seq<Option<BlockView>>)
    requires
        w.len() > 0,
    ensures
        span(w.drop_first()) == (if span(w) > 0 {
            (span(w) - 1) as nat
        } else {
            0
        }),
    decreases w.len(),
{
    if w.len() > 1 && w.last() is None {
        assert(w.drop_first().drop_last() =~= w.drop_last().drop_first());
        span_drop_first(w.drop_last());
    } else if w.len() == 1 {
        assert(w.drop_first() =~= Seq::empty());
        assert(w.drop_last() =~= Seq::empty());
    }
}

proof fn span_positive(w: Seq<Option<BlockView>>)
    ensures
        span(w) > 0 <==> count(w) > 0,
        count(w) <= span(w) <= w.len(),
    decreases w.len(),
{
    if w.len() > 0 {
        count_bounds(w);
        span_positive(w.drop_last());
    }
}

/// A jitter buffer played out at the pace of whoever drains it. A lost packet
/// sounds as silence; a buffer that has run dry is not drained any further, so
/// the packet that is due next can still be played when it arrives.
pub struct Playout {
    jitter: JitterBuffer,
    played: bool,
    last_len: usize,
    last_channels: u8,
}

impl Playout {
    pub closed spec fn view(&self) -> PlayoutView {
        PlayoutView {
            jitter: self.jitter.view(),
            shape: if self.played {
                Some((self.last_len as nat, self.last_channels))
            } else {
                None
            },
        }
    }

    pub closed spec fn wf(&self) -> bool {
        &&& self.jitter.wf()
        &&& self.view().valid()
    }

    /// A playout in order is valid.
    pub proof fn wf_is_valid(&self)
        requires
            self.wf(),
        ensures
            self.view().valid(),
    {
    }

    /// `prime` is how many packets to buffer before playout begins.
    pub fn new(prime: usize) -> (p: Playout)
        ensures
            p.wf(),
            p.view() == PlayoutView::fresh(prime as nat),
    {
        proof {
            count_none(empty_window());
        }
        Playout { jitter: JitterBuffer::new(prime), played: false, last_len: 0, last_channels: 0 }
    }

    /// Takes in a packet: see [`JitterBuffer::insert`].
    pub fn insert(&mut self, pkt: AudioPacket) -> (r: Ingest)
        requires
            old(self).wf(),
        ensures
            final(self).wf(),
            final(self).view() == old(self).view().inserted(pkt@),
            r.resynced == old(self).view().jitter.is_desync(pkt.seq),
            r.newly_primed == (!old(self).view().jitter.primed
                && final(self).view().jitter.primed),
    {
        let was: bool = self.jitter.primed;
        proof {
            count_none(empty_window());
            count_update(empty_window(), 0, Some(pkt@.block()));
        }
        let resynced = self.jitter.insert(pkt);
        Ingest { resynced, newly_primed: !was && self.jitter.primed }
    }

    /// The next block, or `None` before the cushion is complete and on underrun.
    pub fn next_block(&mut self) -> (r: Option<(Vec<u32>, u8)>)
        requires
            old(self).wf(),
        ensures
            final(self).wf(),
            match r {
                Some(b) => {
                    &&& old(self).view().can_play()
                    &&& (b.0@, b.1) == old(self).view().next_block()
                    &&& final(self).view() == old(self).view().played()
                    &&& final(self).view().reserve() < old(self).view().reserve()
                },
                None => {
                    &&& !old(self).view().can_play()
                    &&& final(self).view() == old(self).view()
                },
            },
    {
        if !self.jitter.primed || self.jitter.buffered_packets() == 0 {
            return None;
        }
        proof {
            span_drained(self.view().jitter.window);
            span_positive(self.view().jitter.window);
        }
        match self.jitter.drain_next() {
            Some(block) => {
                self.played = true;
                self.last_len = block.0.len();
                self.last_channels = block.1;
                Some(block)
            },
            None => {
                let quiet: Vec<u32> = vec![0u32; self.last_len];
                assert(quiet@ =~= silence(self.last_len as nat));
                Some((quiet, self.last_channels))
            },
        }
    }

    /// The length and channel count of what [`Playout::next_block`] would hand
    /// out; `None` where it would hand out nothing.
    pub fn peek_shape(&self) -> (r: Option<(usize, u8)>)
        requires
            self.wf(),
        ensures
            match r {
                Some(s) => {
                    &&& self.view().can_play()
                    &&& s.0 == self.view().next_block().0.len()
                    &&& s.1 == self.view().next_block().1
                },
                None => !self.view().can_play(),
            },
    {
        if !self.jitter.primed || self.jitter.buffered_packets() == 0 {
            return None;
        }
        match self.jitter.peek_shape() {
            Some(shape) => Some(shape),
            None => Some((self.last_len, self.last_channels)),
        }
    }

    /// Enough packets have been buffered for playout to run.
    pub fn primed(&self) -> (r: bool)
        requires
            self.wf(),
        ensures
            r == self.view().jitter.primed,
    {
        self.jitter.primed
    }

    /// Packets held.
    pub fn buffered_packets(&self) -> (n: usize)
        requires
            self.wf(),
        ensures
            n == self.view().jitter.filled(),
    {
        self.jitter.buffered_packets()
    }
}

/// The buffer after `n` drains.
pub open spec fn after_drains(v: JitterView, n: nat) -> JitterView
    decreases n,
{
    if n == 0 {
        v
    } else {
        after_drains(v, (n - 1) as nat).drained()
    }
}

/// The buffer after a run of arrivals.
pub open spec fn after_arrivals(v: JitterView, packets: Seq<PacketView>) -> JitterView
    decreases packets.len(),
{
    if packets.len() == 0 {
        v
    } else {
        after_arrivals(v, packets.drop_last()).inserted(packets.last())
    }
}

/// Packets play in the order of their sequence numbers, whatever order they
/// arrived in: drain number `n` plays what has arrived of `read_seq + n`.
pub proof fn drains_in_sequence(v: JitterView, n: nat)
    requires
        v.valid(),
        n < SLOTS,
    ensures
        after_drains(v, n).window[0] == v.window[n as int],
        distance(v.read_seq, after_drains(v, n).read_seq) == n,
{
    drains_shift(v, n);
}

proof fn drains_shift(v: JitterView, n: nat)
    requires
        v.valid(),
        n <= SLOTS,
    ensures
        after_drains(v, n).valid(),
        distance(v.read_seq, after_drains(v, n).read_seq) == n,
        forall|k: int|
            0 <= k < SLOTS ==> #[trigger] after_drains(v, n).window[k] == if k + n < SLOTS {
                v.window[k + n]
            } else {
                None
            },
    decreases n,
{
    if n > 0 {
        let m = (n - 1) as nat;
        drains_shift(v, m);
        let before = after_drains(v, m);
        assert forall|k: int| 0 <= k < SLOTS implies #[trigger] after_drains(v, n).window[k] == if k
            + n < SLOTS {
            v.window[k + n]
        } else {
            None
        } by {
            if k < SLOTS - 1 {
                assert(before.window[k + 1] == if k + 1 + m < SLOTS {
                    v.window[k + 1 + m]
                } else {
                    None
                });
            }
        }
    }
}

/// A packet that arrives in the window is played when its turn comes.
pub proof fn arrival_plays_in_turn(v: JitterView, p: PacketView)
    requires
        v.valid(),
        v.in_window(p.seq),
    ensures
        after_drains(v.inserted(p), distance(v.anchor(p.seq), p.seq) as nat).window[0] == Some(
            p.block(),
        ),
{
    drains_in_sequence(v.inserted(p), distance(v.anchor(p.seq), p.seq) as nat);
}

/// Two packets that both have their place in the window may arrive in either
/// order: what is buffered is the same.
pub proof fn arrival_order_is_immaterial(v: JitterView, p: PacketView, q: PacketView)
    requires
        v.valid(),
        v.filled() > 0 || v.primed,
        v.in_window(p.seq),
        v.in_window(q.seq),
        p.seq != q.seq,
    ensures
        v.inserted(p).inserted(q) == v.inserted(q).inserted(p),
{
    let dp = distance(v.read_seq, p.seq);
    let dq = distance(v.read_seq, q.seq);
    let wp = v.window.update(dp, Some(p.block()));
    let wq = v.window.update(dq, Some(q.block()));
    count_update(v.window, dp, Some(p.block()));
    count_update(v.window, dq, Some(q.block()));
    count_update(wp, dq, Some(q.block()));
    count_update(wq, dp, Some(p.block()));
    assert(dp != dq);
    assert(wp.update(dq, Some(q.block())) =~= wq.update(dp, Some(p.block())));
}

/// A packet that has been passed by is dropped without a trace.
pub proof fn late_arrival_is_dropped(v: JitterView, p: PacketView)
    requires
        v.valid(),
        v.is_late(p.seq),
    ensures
        v.inserted(p) == v,
        !v.is_desync(p.seq),
{
}

/// A packet far outside the window starts the stream over: it is the only one
/// held, it plays next, and the cushion has to fill again.
pub proof fn desync_starts_over(v: JitterView, p: PacketView)
    requires
        v.valid(),
        v.is_desync(p.seq),
    ensures
        v.inserted(p).valid(),
        v.inserted(p).filled() == 1,
        v.inserted(p).window[0] == Some(p.block()),
        v.inserted(p).read_seq == p.seq,
        !v.inserted(p).primed,
{
    count_none(empty_window());
    count_update(empty_window(), 0, Some(p.block()));
}

/// A stream that starts on an unprimed, empty buffer and loses nothing is
/// anchored at its first packet, never resyncs, and primes with packet number
/// `prime`, no sooner.
pub proof fn unbroken_stream_primes(v: JitterView, packets: Seq<PacketView>)
    requires
        v.valid(),
        v.filled() == 0,
        !v.primed,
        0 < packets.len() <= SLOTS,
        forall|i: int|
            0 <= i < packets.len() ==> distance(packets[0].seq, #[trigger] packets[i].seq) == i,
    ensures
        after_arrivals(v, packets).read_seq == packets[0].seq,
        after_arrivals(v, packets).filled() == packets.len(),
        after_arrivals(v, packets).primed == (packets.len() >= v.prime),
        forall|i: int|
            0 <= i < packets.len() ==> after_arrivals(v, packets).window[i] == Some(
                #[trigger] packets[i].block(),
            ),
        !after_arrivals(v, packets.drop_last()).is_desync(packets.last().seq),
    decreases packets.len(),
{
    let front = packets.drop_last();
    let last = packets.last();
    if front.len() == 0 {
        assert(front =~= Seq::empty());
        count_zero(v.window);
        count_update(v.window, 0, Some(last.block()));
        assert(distance(last.seq, last.seq) == 0);
    } else {
        unbroken_stream_primes(v, front);
        let u = after_arrivals(v, front);
        stream_tail_empty(v, front);
        arrivals_valid(v, front);
        let d = distance(u.read_seq, last.seq);
        assert(d == front.len());
        count_update(u.window, d, Some(last.block()));
        assert forall|i: int| 0 <= i < packets.len() implies after_arrivals(v, packets).window[i]
            == Some(#[trigger] packets[i].block()) by {
            if i < front.len() {
                assert(front[i].block() == packets[i].block());
            }
        }
    }
}

proof fn arrivals_valid(v: JitterView, packets: Seq<PacketView>)
    requires
        v.valid(),
    ensures
        after_arrivals(v, packets).valid(),
        after_arrivals(v, packets).prime == v.prime,
    decreases packets.len(),
{
    if packets.len() > 0 {
        arrivals_valid(v, packets.drop_last());
    }
}

proof fn stream_tail_empty(v: JitterView, packets: Seq<PacketView>)
    requires
        v.valid(),
        v.filled() == 0,
        !v.primed,
        0 < packets.len() < SLOTS,
        forall|i: int|
            0 <= i < packets.len() ==> distance(packets[0].seq, #[trigger] packets[i].seq) == i,
    ensures
        forall|k: int|
            packets.len() <= k < SLOTS ==> after_arrivals(v, packets).window[k] is None,
    decreases packets.len(),
{
    let front = packets.drop_last();
    let last = packets.last();
    arrivals_valid(v, front);
    if front.len() == 0 {
        assert(front =~= Seq::empty());
        count_zero(v.window);
    } else {
        stream_tail_empty(v, front);
        unbroken_stream_primes(v, front);
    }
}

/// A playout that has something to play yields as many blocks as there are
/// places up to the last packet held, and then stops: draining ends.
pub proof fn playing_uses_up_the_reserve(v: PlayoutView)
    requires
        v.valid(),
    ensures
        v.can_play() ==> v.reserve() > 0 && v.played().reserve() == v.reserve() - 1,
        v.reserve() == 0 ==> !v.can_play(),
        v.reserve() <= SLOTS,
{
    span_drained(v.jitter.window);
    span_positive(v.jitter.window);
}

/// Playing a block leaves the playout in order.
pub proof fn played_is_valid(v: PlayoutView)
    requires
        v.valid(),
    ensures
        v.played().valid(),
{
}

/// A buffer holds at most a window of packets.
pub proof fn filled_bound(v: JitterView)
    requires
        v.valid(),
    ensures
        v.filled() <= SLOTS,
{
    count_bounds(v.window);
}

/// The playout after `n` blocks.
pub open spec fn after_plays(v: PlayoutView, n: nat) -> PlayoutView
    decreases n,
{
    if n == 0 {
        v
    } else {
        after_plays(v, (n - 1) as nat).played()
    }
}

/// A primed playout plays everything that it holds, in the order of the sequence
/// numbers and without a pause: block number `n` is the packet numbered
/// `read_seq + n` where it has arrived, and silence where it is missing.
pub proof fn plays_in_sequence(v: PlayoutView, n: nat)
    requires
        v.valid(),
        v.jitter.primed,
        n < v.reserve(),
    ensures
        after_plays(v, n).valid(),
        after_plays(v, n).can_play(),
        v.jitter.window[n as int] matches Some(b) ==> after_plays(v, n).next_block() == b,
        v.jitter.window[n as int] is None ==> all_silent(after_plays(v, n).next_block().0),
{
    plays_shift(v, n);
    playing_uses_up_the_reserve(v);
    drains_shift(v.jitter, n);
    assert(after_drains(v.jitter, n).window[0] == v.jitter.window[n as int]);
}

/// Every sample is silence.
pub open spec fn all_silent(samples: Seq<u32>) -> bool {
    forall|i: int| 0 <= i < samples.len() ==> #[trigger] samples[i] == 0
}

proof fn plays_shift(v: PlayoutView, n: nat)
    requires
        v.valid(),
        v.jitter.primed,
        n < v.reserve(),
    ensures
        after_plays(v, n).valid(),
        after_plays(v, n).can_play(),
        after_plays(v, n).jitter == after_drains(v.jitter, n),
        after_plays(v, n).reserve() == v.reserve() - n,
    decreases n,
{
    if n > 0 {
        plays_shift(v, (n - 1) as nat);
        let before = after_plays(v, (n - 1) as nat);
        playing_uses_up_the_reserve(before);
        played_is_valid(before);
    }
    span_positive(after_plays(v, n).jitter.window);
}

/// The number of places taken is the number of places that hold a packet.
pub proof fn filled_counts_the_places_taken(v: JitterView)
    ensures
        Set::new(|k: int| 0 <= k < v.window.len() && v.window[k] is Some).finite(),
        v.filled() == Set::new(|k: int| 0 <= k < v.window.len() && v.window[k] is Some).len(),
        v.filled() > 0 <==> exists|k: int|
            0 <= k < v.window.len() && (#[trigger] v.window[k]) is Some,
{
    count_is_cardinality(v.window);
    if v.filled() == 0 {
        count_zero(v.window);
    } else if forall|k: int| 0 <= k < v.window.len() ==> (#[trigger] v.window[k]) is None {
        count_none(v.window);
    }
}

proof fn count_is_cardinality(w: Seq<Option<BlockView>>)
    ensures
        Set::new(|k: int| 0 <= k < w.len() && w[k] is Some).finite(),
        count(w) == Set::new(|k: int| 0 <= k < w.len() && w[k] is Some).len(),
    decreases w.len(),
{
    let all = Set::new(|k: int| 0 <= k < w.len() && w[k] is Some);
    if w.len() == 0 {
        assert(all =~= Set::empty());
    } else {
        let front = w.drop_last();
        count_is_cardinality(front);
        let rest = Set::new(|k: int| 0 <= k < front.len() && front[k] is Some);
        if w.last() is Some {
            assert(all =~= rest.insert(w.len() - 1));
        } else {
            assert(all =~= rest);
        }
    }
}

/// A packet that arrives less than a window ahead of the read position stands in
/// its place from then on and moves nothing else, whether or not the buffer is
/// primed and whatever it holds; the stream has not lost its place. Playout starts
/// as soon as so many packets are held as the cushion asks for.
pub proof fn packet_ahead_takes_its_place(v: JitterView, p: PacketView)
    requires
        v.valid(),
        v.primed || exists|k: int| 0 <= k < v.window.len() && (#[trigger] v.window[k]) is Some,
        (p.seq - v.read_seq) % 0x1_0000_0000 < 256,
    ensures
        v.inserted(p).window.len() == 256,
        v.inserted(p).window[(p.seq - v.read_seq) % 0x1_0000_0000] == Some(
            (p.samples, p.channels),
        ),
        forall|k: int|
            0 <= k < 256 && k != (p.seq - v.read_seq) % 0x1_0000_0000 ==> (
            #[trigger] v.inserted(p).window[k]) == v.window[k],
        v.inserted(p).read_seq == v.read_seq,
        v.inserted(p).prime == v.prime,
        v.inserted(p).primed <==> v.primed || Set::new(
            |k: int| 0 <= k < 256 && v.inserted(p).window[k] is Some,
        ).len() >= v.prime,
        !v.is_desync(p.seq),
{
    filled_counts_the_places_taken(v);
    filled_counts_the_places_taken(v.inserted(p));
    let w = v.inserted(p).window;
    assert(Set::new(|k: int| 0 <= k < w.len() && w[k] is Some) =~= Set::new(
        |k: int| 0 <= k < 256 && w[k] is Some,
    ));
}

/// A packet that lies at most a window behind the read position is late: it is
/// dropped, and nothing changes.
pub proof fn packet_just_passed_is_dropped(v: JitterView, p: PacketView)
    requires
        v.valid(),
        v.primed || exists|k: int| 0 <= k < v.window.len() && (#[trigger] v.window[k]) is Some,
        (p.seq - v.read_seq) % 0x1_0000_0000 >= 0x1_0000_0000 - 256,
    ensures
        v.inserted(p) == v,
        !v.is_desync(p.seq),
{
    filled_counts_the_places_taken(v);
}

/// A packet is dropped for nothing else: any that lies further off, in either
/// direction, starts the stream over. It is reported as a resync, is the only
/// packet held, plays next, and the cushion has to fill again.
pub proof fn packet_far_off_starts_over(v: JitterView, p: PacketView)
    requires
        v.valid(),
        v.primed || exists|k: int| 0 <= k < v.window.len() && (#[trigger] v.window[k]) is Some,
        256 <= (p.seq - v.read_seq) % 0x1_0000_0000 < 0x1_0000_0000 - 256,
    ensures
        v.is_desync(p.seq),
        v.inserted(p).window.len() == 256,
        v.inserted(p).window[0] == Some((p.samples, p.channels)),
        forall|k: int| 0 < k < 256 ==> (#[trigger] v.inserted(p).window[k]) is None,
        v.inserted(p).read_seq == p.seq,
        v.inserted(p).prime == v.prime,
        !v.inserted(p).primed,
{
    filled_counts_the_places_taken(v);
}

/// The first packet of a stream, whatever its number, is where the stream starts.
pub proof fn first_packet_anchors_the_stream(v: JitterView, p: PacketView)
    requires
        v.valid(),
        !v.primed,
        forall|k: int| 0 <= k < v.window.len() ==> (#[trigger] v.window[k]) is None,
    ensures
        !v.is_desync(p.seq),
        v.inserted(p).window.len() == 256,
        v.inserted(p).window[0] == Some((p.samples, p.channels)),
        forall|k: int| 0 < k < 256 ==> (#[trigger] v.inserted(p).window[k]) is None,
        v.inserted(p).read_seq == p.seq,
        v.inserted(p).prime == v.prime,
        v.inserted(p).primed <==> v.prime == 1,
{
    filled_counts_the_places_taken(v);
    count_update(v.window, 0, Some(p.block()));
}

/// Draining moves every packet one place to the front, and counts on round the
/// wrap of the sequence numbers; nothing else changes.
pub proof fn draining_moves_one_place(v: JitterView)
    requires
        v.valid(),
    ensures
        v.drained().window.len() == 256,
        forall|k: int| 0 <= k < 255 ==> (#[trigger] v.drained().window[k]) == v.window[k + 1],
        v.drained().window[255] is None,
        v.drained().read_seq == (v.read_seq + 1) % 0x1_0000_0000,
        v.drained().prime == v.prime,
        v.drained().primed == v.primed,
{
}

/// A new buffer holds nothing, plays nothing, and asks for as deep a cushion as it
/// was made with, but for no less than one packet and no more than half a window.
pub proof fn new_buffer_waits_for_its_cushion(prime: nat)
    ensures
        JitterView::fresh(prime).valid(),
        forall|k: int| 0 <= k < 256 ==> (#[trigger] JitterView::fresh(prime).window[k]) is None,
        !JitterView::fresh(prime).primed,
        1 <= prime <= 128 ==> JitterView::fresh(prime).prime == prime,
        prime < 1 ==> JitterView::fresh(prime).prime == 1,
        prime > 128 ==> JitterView::fresh(prime).prime == 128,
        !PlayoutView::fresh(prime).jitter.primed,
        PlayoutView::fresh(prime).jitter == JitterView::fresh(prime),
        PlayoutView::fresh(prime).shape is None,
{
}

/// A playout plays exactly while it is primed and holds a packet. It plays the
/// packet that is due as it arrived, and silence as long and as wide as what it
/// played last where that packet is missing; and then the next is due.
pub proof fn playout_plays_what_is_due(v: PlayoutView)
    requires
        v.valid(),
    ensures
        v.can_play() <==> v.jitter.primed && exists|k: int|
            0 <= k < v.jitter.window.len() && (#[trigger] v.jitter.window[k]) is Some,
        v.can_play() ==> match v.jitter.window[0] {
            Some(b) => v.next_block().0 == b.0 && v.next_block().1 == b.1,
            None => {
                &&& v.shape is Some
                &&& v.next_block().0.len() == (v.shape->0).0
                &&& v.next_block().1 == (v.shape->0).1
                &&& forall|i: int|
                    0 <= i < v.next_block().0.len() ==> (#[trigger] v.next_block().0[i]) == 0
            },
        },
        v.played().jitter == v.jitter.drained(),
        v.played().shape == Some((v.next_block().0.len(), v.next_block().1)),
{
    filled_counts_the_places_taken(v.jitter);
}

/// A packet reaches a playout's buffer as it reaches any; what was played last is
/// not forgotten.
pub proof fn playout_buffers_what_arrives(v: PlayoutView, p: PacketView)
    ensures
        v.inserted(p).jitter == v.jitter.inserted(p),
        v.inserted(p).shape == v.shape,
{
}

/// The blocks that can still be played reach up to the last packet held.
pub proof fn reserve_reaches_the_last_packet(v: PlayoutView)
    requires
        v.valid(),
    ensures
        v.reserve() <= 256,
        v.reserve() > 0 ==> v.jitter.window[v.reserve() - 1] is Some,
        forall|k: int| v.reserve() <= k < 256 ==> (#[trigger] v.jitter.window[k]) is None,
{
    span_reaches(v.jitter.window);
}

proof fn span_reaches(w: Seq<Option<BlockView>>)
    ensures
        span(w) <= w.len(),
        span(w) > 0 ==> w[span(w) - 1] is Some,
        forall|k: int| span(w) <= k < w.len() ==> (#[trigger] w[k]) is None,
    decreases w.len(),
{
    if w.len() > 0 && w.last() is None {
        span_reaches(w.drop_last());
        assert forall|k: int| span(w) <= k < w.len() implies (#[trigger] w[k]) is None by {
            if k < w.len() - 1 {
                assert(w.drop_last()[k] is None);
            }
        }
    }
}

} // verus!
