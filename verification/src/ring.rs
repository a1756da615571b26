//! The rings between the audio callbacks and the network tasks.
//!
//! A ring has two ends, each of which may live on its own thread: what one end
//! finds vacant or occupied can have changed, in its favour, by the time it
//! acts. The contracts here say what holds whatever the other end does.

use vstd::prelude::*;
use crate::jitter::{after_plays, Playout, PlayoutView};
use ringbuf::traits::{Consumer, Observer, Producer, Split};
use ringbuf::{HeapCons, HeapProd, HeapRb};

verus! {

/// Ring capacity in frames: about 85 ms at 48 kHz.
pub const RING_FRAMES: usize = 4096;

/// The write end of a ring of samples.
#[verifier::external_body]
pub struct SampleProducer {
    inner: HeapProd<u32>,
}

/// The read end of a ring of samples.
#[verifier::external_body]
pub struct SampleConsumer {
    inner: HeapCons<u32>,
}

/// Every sample that has gone into the ring through this end, in order.
pub uninterp spec fn written(p: SampleProducer) -> Seq<u32>;

/// The free places that this end can still count on: the other end can only free
/// more.
pub uninterp spec fn room(p: SampleProducer) -> nat;

/// The taken places that this end has to reckon with at most: the other end can
/// only empty some of them.
pub uninterp spec fn fill(p: SampleProducer) -> nat;

/// Every sample that has come out of the ring through this end, in order.
pub uninterp spec fn taken(c: SampleConsumer) -> Seq<u32>;

/// The waiting samples that this end can still count on: the other end can only
/// add more.
pub uninterp spec fn ready(c: SampleConsumer) -> nat;

/// Every sample that ever goes into the ring through this end, past and to come,
/// in order.
pub uninterp spec fn inflow(p: SampleProducer) -> Seq<u32>;

/// Every sample that ever goes into the ring which this end reads, past and to
/// come, in order.
pub uninterp spec fn outflow(c: SampleConsumer) -> Seq<u32>;

/// `ringbuf::HeapRb::new` and `Split::split`: the two ends of one new ring of
/// `capacity` places, all of them free, through neither end of which a sample
/// has passed. `new` panics on a capacity of zero and on one that cannot be
/// addressed.
#[verifier::external_body]
fn heap_ring(capacity: usize) -> (ends: (SampleProducer, SampleConsumer))
    requires
        0 < capacity,
        capacity * 4 <= isize::MAX,
    ensures
        inflow(ends.0) == outflow(ends.1),
        written(ends.0) == Seq::<u32>::empty(),
        room(ends.0) == capacity,
        fill(ends.0) == 0,
        taken(ends.1) == Seq::<u32>::empty(),
        ready(ends.1) == 0,
{
    let (p, c) = HeapRb::<u32>::new(capacity).split();
    (SampleProducer { inner: p }, SampleConsumer { inner: c })
}

/// `ringbuf::traits::Observer::vacant_len` at the write end: how many places
/// are free. The other end can only free more, so they are no fewer than this
/// end could count on, and stay free until it writes.
#[verifier::external_body]
fn vacant_len(p: &mut SampleProducer) -> (n: usize)
    ensures
        room(*old(p)) <= n,
        room(*final(p)) == n,
        inflow(*final(p)) == inflow(*old(p)),
        written(*final(p)) == written(*old(p)),
        fill(*final(p)) == fill(*old(p)),
{
    p.inner.vacant_len()
}

/// `ringbuf::traits::Observer::occupied_len` at the write end: how many places
/// are taken. The other end can only empty some, so they are no more than this
/// end had to reckon with, and become no more until it writes.
#[verifier::external_body]
fn occupied_len(p: &mut SampleProducer) -> (n: usize)
    ensures
        n <= fill(*old(p)),
        fill(*final(p)) == n,
        inflow(*final(p)) == inflow(*old(p)),
        written(*final(p)) == written(*old(p)),
        room(*final(p)) == room(*old(p)),
{
    p.inner.occupied_len()
}

/// `ringbuf::traits::Producer::push_slice`: writes as many samples as find
/// room, from the front of `data`, and returns their number: all of them, or at
/// least as many as this end could count on to find room. Places that it does
/// not fill stay free, and no more than these samples are added to what is taken.
#[verifier::external_body]
fn push_slice(p: &mut SampleProducer, data: &[u32]) -> (n: usize)
    ensures
        n <= data@.len(),
        n == data@.len() || room(*old(p)) <= n,
        room(*old(p)) <= room(*final(p)) + n,
        fill(*final(p)) <= fill(*old(p)) + n,
        inflow(*final(p)) == inflow(*old(p)),
        written(*final(p)) == written(*old(p)) + data@.take(n as int),
        written(*final(p)).is_prefix_of(inflow(*final(p))),
{
    p.inner.push_slice(data)
}

/// `ringbuf::traits::Observer::occupied_len` at the read end: how many samples
/// wait. The other end can only add more, so they are no fewer than this end
/// could count on, and stay until it reads.
#[verifier::external_body]
fn waiting_len(c: &mut SampleConsumer) -> (n: usize)
    ensures
        ready(*old(c)) <= n,
        ready(*final(c)) == n,
        outflow(*final(c)) == outflow(*old(c)),
        taken(*final(c)) == taken(*old(c)),
{
    c.inner.occupied_len()
}

/// `ringbuf::traits::Consumer::pop_slice`: moves as many samples as are there
/// into the front of `data` and returns their number: as many as `data` holds, or
/// at least as many as this end could count on to wait. They are the ones that
/// went into the ring next. The rest of `data` keeps its samples.
#[verifier::external_body]
fn pop_slice(c: &mut SampleConsumer, data: &mut [u32]) -> (n: usize)
    ensures
        n <= old(data)@.len(),
        final(data)@.len() == old(data)@.len(),
        n == old(data)@.len() || ready(*old(c)) <= n,
        ready(*old(c)) <= ready(*final(c)) + n,
        outflow(*final(c)) == outflow(*old(c)),
        taken(*final(c)) == taken(*old(c)) + final(data)@.take(n as int),
        taken(*final(c)).is_prefix_of(outflow(*final(c))),
        forall|i: int| n <= i < old(data)@.len() ==> final(data)@[i] == old(data)@[i],
{
    c.inner.pop_slice(data)
}

/// What the read end takes out of a ring is what the write end puts in, sample by
/// sample and in order: none is lost, repeated or changed on the way.
pub proof fn samples_come_out_as_they_went_in(p: SampleProducer, c: SampleConsumer)
    requires
        inflow(p) == outflow(c),
        written(p).is_prefix_of(inflow(p)),
        taken(c).is_prefix_of(outflow(c)),
    ensures
        taken(c).len() <= written(p).len() ==> taken(c).is_prefix_of(written(p)),
        written(p).len() <= taken(c).len() ==> written(p).is_prefix_of(taken(c)),
{
}

/// A ring that holds `frames` frames of `channels` channels, none as yet.
pub fn sample_ring(frames: usize, channels: usize) -> (ends: (SampleProducer, SampleConsumer))
    requires
        0 < frames,
        0 < channels,
        frames * channels * 4 <= isize::MAX,
    ensures
        inflow(ends.0) == outflow(ends.1),
        written(ends.0) == Seq::<u32>::empty(),
        room(ends.0) == frames * channels,
        fill(ends.0) == 0,
        taken(ends.1) == Seq::<u32>::empty(),
        ready(ends.1) == 0,
{
    assert(0 < frames * channels) by (nonlinear_arith)
        requires
            0 < frames,
            0 < channels,
    ;
    heap_ring(frames * channels)
}

/// Puts captured samples into the ring; those that find no room are dropped.
/// Returns how many were dropped.
pub fn capture(p: &mut SampleProducer, data: &[u32]) -> (dropped: usize)
    ensures
        dropped <= data@.len(),
        dropped == 0 || room(*old(p)) <= data@.len() - dropped,
        room(*old(p)) <= room(*final(p)) + (data@.len() - dropped),
        fill(*final(p)) <= fill(*old(p)) + (data@.len() - dropped),
        inflow(*final(p)) == inflow(*old(p)),
        written(*final(p)) == written(*old(p)) + data@.take(data@.len() - dropped),
        written(*final(p)).is_prefix_of(inflow(*final(p))),
{
    let pushed: usize = push_slice(p, data);
    data.len() - pushed
}

/// Takes a block of exactly `data.len()` samples out of the ring, where so many
/// wait. Where they do not, the ring is left alone and so is `data`.
pub fn take_block(c: &mut SampleConsumer, data: &mut [u32]) -> (whole: bool)
    ensures
        final(data)@.len() == old(data)@.len(),
        outflow(*final(c)) == outflow(*old(c)),
        old(data)@.len() <= ready(*old(c)) ==> whole,
        whole ==> {
            &&& ready(*old(c)) <= ready(*final(c)) + old(data)@.len()
            &&& taken(*final(c)) == taken(*old(c)) + final(data)@
            &&& taken(*final(c)).is_prefix_of(outflow(*final(c)))
        },
        !whole ==> {
            &&& taken(*final(c)) == taken(*old(c))
            &&& final(data)@ == old(data)@
            &&& ready(*old(c)) <= ready(*final(c)) < old(data)@.len()
        },
{
    if waiting_len(c) < data.len() {
        return false;
    }
    let n: usize = pop_slice(c, data);
    assert(data@.take(n as int) =~= data@);
    true
}

/// Fills `data` for playback: samples from the ring, then silence where the ring
/// runs dry. Returns how many came from the ring.
pub fn playback(c: &mut SampleConsumer, data: &mut [u32]) -> (popped: usize)
    ensures
        popped <= old(data)@.len(),
        final(data)@.len() == old(data)@.len(),
        popped == old(data)@.len() || ready(*old(c)) <= popped,
        ready(*old(c)) <= ready(*final(c)) + popped,
        outflow(*final(c)) == outflow(*old(c)),
        taken(*final(c)) == taken(*old(c)) + final(data)@.take(popped as int),
        taken(*final(c)).is_prefix_of(outflow(*final(c))),
        forall|i: int| popped <= i < old(data)@.len() ==> final(data)@[i] == 0,
{
    let len: usize = data.len();
    let popped: usize = pop_slice(c, data);
    let mut i: usize = popped;
    let ghost filled = data@.take(popped as int);
    while i < len
        invariant
            popped <= i <= len,
            data@.len() == len,
            data@.take(popped as int) =~= filled,
            forall|k: int| popped <= k < i ==> data@[k] == 0,
        decreases len - i,
    {
        data[i] = 0;
        i = i + 1;
    }
    popped
}

/// What a source of blocks came up with.
pub enum Yield {
    Block(Vec<u32>),
    /// There is nothing to play.
    Dry,
    /// What is to be played next is not of a shape that can be played.
    Broken,
}

/// What a [`Yield`] holds.
pub enum YieldView {
    Block(Seq<u32>),
    Dry,
    Broken,
}

impl View for Yield {
    type V = YieldView;

    open spec fn view(&self) -> YieldView {
        match self {
            Yield::Block(b) => YieldView::Block(b@),
            Yield::Dry => YieldView::Dry,
            Yield::Broken => YieldView::Broken,
        }
    }
}

/// A source of blocks: something that [`refill`] can feed a ring from.
pub trait BlockSource {
    /// What the source holds.
    type Model;

    spec fn model(&self) -> Self::Model;

    /// The source is in order.
    spec fn fit(&self) -> bool;

    /// A bound on the blocks that are left.
    spec fn left(&self) -> nat;

    /// What surrounds the source and never changes lets one that held `before`
    /// come up with `outcome` and hold `after` then.
    spec fn yields(&self, before: Self::Model, outcome: YieldView, after: Self::Model) -> bool;

    fn next(&mut self) -> (outcome: Yield)
        requires
            old(self).fit(),
        ensures
            final(self).fit(),
            outcome is Block ==> final(self).left() < old(self).left(),
            old(self).yields(old(self).model(), outcome@, final(self).model()),
            forall|a: Self::Model, y: YieldView, b: Self::Model|
                #[trigger] final(self).yields(a, y, b) == old(self).yields(a, y, b),
    ;
}

/// Whether a ring with `vacant` free and `occupied` taken places is to be given
/// another block: a whole block finds room and the target is not reached.
pub open spec fn wants_block(vacant: nat, occupied: nat, target_occ: nat, block_len: nat) -> bool {
    vacant >= block_len && occupied < target_occ
}

/// `models` are what a source held before and after each of `blocks`.
pub open spec fn yielded<S: BlockSource>(
    source: S,
    models: Seq<S::Model>,
    blocks: Seq<Seq<u32>>,
) -> bool {
    &&& models.len() == blocks.len() + 1
    &&& forall|i: int|
        0 <= i < blocks.len() ==> source.yields(
            #[trigger] models[i],
            YieldView::Block(blocks[i]),
            models[i + 1],
        )
}

/// `rings` are what a ring was, each time it had been looked at, while it was
/// given `blocks`: each block at a time when it wanted one.
pub open spec fn given(
    rings: Seq<SampleProducer>,
    blocks: Seq<Seq<u32>>,
    target_occ: nat,
    block_len: nat,
) -> bool {
    &&& rings.len() == blocks.len() + 1
    &&& forall|i: int|
        0 <= i < blocks.len() ==> {
            &&& wants_block(room(#[trigger] rings[i]), fill(rings[i]), target_occ, block_len)
            &&& gives(rings[i], blocks[i], rings[i + 1])
        }
}

/// The ring has been given `block`: all of it, or as much of its front as found
/// room, which is no less than this end could count on.
pub open spec fn gives(before: SampleProducer, block: Seq<u32>, after: SampleProducer) -> bool {
    let n = written(after).len() - written(before).len();
    &&& 0 <= n <= block.len()
    &&& n == block.len() || room(before) <= n
    &&& room(before) <= room(after) + n
    &&& fill(after) <= fill(before) + n
    &&& written(after) == written(before) + block.take(n)
    &&& written(after).is_prefix_of(inflow(after))
    &&& inflow(after) == inflow(before)
}

/// The run of a refill of `ring` from `source` that has led to `ring_after`, and
/// to `after` in the source. `models` are what the source held, `rings` what the
/// ring was, and `blocks` went over one by one, each as it came and while the ring
/// wanted one, until the ring wanted no more or the source had none; or, where
/// `sound` is false, until a block came up that cannot be played. So the ring
/// holds no more than it did, or stays within a block of the target.
pub open spec fn refill_run<S: BlockSource>(
    ring: SampleProducer,
    ring_after: SampleProducer,
    target_occ: nat,
    block_len: nat,
    source: S,
    after: S::Model,
    sound: bool,
    models: Seq<S::Model>,
    blocks: Seq<Seq<u32>>,
    rings: Seq<SampleProducer>,
) -> bool {
    &&& yielded(source, models, blocks)
    &&& given(rings, blocks, target_occ, block_len)
    &&& models[0] == source.model()
    &&& written(rings[0]) == written(ring)
    &&& inflow(rings[0]) == inflow(ring)
    &&& room(ring) <= room(rings[0])
    &&& fill(rings[0]) <= fill(ring)
    &&& ring_after == rings.last()
    &&& if wants_block(room(ring_after), fill(ring_after), target_occ, block_len) {
        source.yields(
            models.last(),
            if sound {
                YieldView::Dry
            } else {
                YieldView::Broken
            },
            after,
        )
    } else {
        sound && after == models.last()
    }
    &&& if blocks.len() == 0 {
        fill(ring_after) <= fill(ring)
    } else {
        fill(ring_after) < target_occ + blocks.last().len()
    }
}

/// A refill of `ring` from `source` has led to `ring_after`, and to `after` in
/// the source.
pub open spec fn refilled<S: BlockSource>(
    ring: SampleProducer,
    ring_after: SampleProducer,
    target_occ: nat,
    block_len: nat,
    source: S,
    after: S::Model,
    sound: bool,
) -> bool {
    exists|models: Seq<S::Model>, blocks: Seq<Seq<u32>>, rings: Seq<SampleProducer>| #[trigger]
        refill_run(
            ring,
            ring_after,
            target_occ,
            block_len,
            source,
            after,
            sound,
            models,
            blocks,
            rings,
        )
}

/// What one look at a ring led to.
pub enum RefillStep {
    /// The ring is full enough, or the source has run dry.
    Stop,
    /// This block goes into the ring.
    Push(Vec<u32>),
    /// What is to be played next cannot be played.
    Broken,
}

impl RefillStep {
    /// What the source must have come up with.
    pub open spec fn outcome(self) -> YieldView {
        match self {
            RefillStep::Push(b) => YieldView::Block(b@),
            RefillStep::Stop => YieldView::Dry,
            RefillStep::Broken => YieldView::Broken,
        }
    }
}

/// Decides on the next step of a refill from what the ring showed: asks the
/// source only where the ring wants a block.
pub fn refill_step<S: BlockSource>(
    source: &mut S,
    vacant: usize,
    occupied: usize,
    target_occ: usize,
    block_len: usize,
) -> (step: RefillStep)
    requires
        old(source).fit(),
    ensures
        final(source).fit(),
        forall|a: S::Model, y: YieldView, b: S::Model|
            #[trigger] final(source).yields(a, y, b) == old(source).yields(a, y, b),
        !wants_block(vacant as nat, occupied as nat, target_occ as nat, block_len as nat) ==> {
            &&& step is Stop
            &&& final(source).model() == old(source).model()
        },
        wants_block(vacant as nat, occupied as nat, target_occ as nat, block_len as nat)
            ==> old(source).yields(old(source).model(), step.outcome(), final(source).model()),
        step is Push ==> final(source).left() < old(source).left(),
{
    if vacant >= block_len && occupied < target_occ {
        match source.next() {
            Yield::Block(block) => RefillStep::Push(block),
            Yield::Dry => RefillStep::Stop,
            Yield::Broken => RefillStep::Broken,
        }
    } else {
        RefillStep::Stop
    }
}

/// Tops up an output ring toward `target_occ` samples, pushing whole
/// `block_len`-sample blocks supplied by `source`. Pacing by the ring's occupancy
/// locks the push rate to the device draining it: the device only frees space
/// at the hardware clock, so the ring settles near `target_occ` instead of
/// drifting full (drops) or empty (glitches) the way a free-running timer would.
/// Stops at the target, when no whole block fits, or when the source has run dry
/// (let the ring drain). False where it had to stop at a block that cannot be
/// played.
pub fn refill<S: BlockSource>(
    ring: &mut SampleProducer,
    target_occ: usize,
    block_len: usize,
    source: &mut S,
) -> (sound: bool)
    requires
        old(source).fit(),
    ensures
        final(source).fit(),
        forall|a: S::Model, y: YieldView, b: S::Model|
            #[trigger] final(source).yields(a, y, b) == old(source).yields(a, y, b),
        refilled(
            *old(ring),
            *final(ring),
            target_occ as nat,
            block_len as nat,
            *old(source),
            final(source).model(),
            sound,
        ),
{
    let ghost mut models: Seq<S::Model> = seq![source.model()];
    let ghost mut blocks: Seq<Seq<u32>> = Seq::empty();
    let mut vacant: usize = vacant_len(ring);
    let mut occupied: usize = occupied_len(ring);
    let ghost mut rings: Seq<SampleProducer> = seq![*ring];
    loop
        invariant
            source.fit(),
            forall|a: S::Model, y: YieldView, b: S::Model|
                #[trigger] source.yields(a, y, b) == old(source).yields(a, y, b),
            yielded(*old(source), models, blocks),
            given(rings, blocks, target_occ as nat, block_len as nat),
            models[0] == old(source).model(),
            models.last() == source.model(),
            written(rings[0]) == written(*old(ring)),
            inflow(rings[0]) == inflow(*old(ring)),
            room(*old(ring)) <= room(rings[0]),
            fill(rings[0]) <= fill(*old(ring)),
            blocks.len() == 0 ==> fill(*ring) <= fill(*old(ring)),
            blocks.len() > 0 ==> fill(*ring) < target_occ + blocks.last().len(),
            rings.last() == *ring,
            room(*ring) == vacant,
            fill(*ring) == occupied,
        decreases source.left(),
    {
        match refill_step(source, vacant, occupied, target_occ, block_len) {
            RefillStep::Stop => {
                proof {
                    assert(refill_run(
                        *old(ring),
                        *ring,
                        target_occ as nat,
                        block_len as nat,
                        *old(source),
                        source.model(),
                        true,
                        models,
                        blocks,
                        rings,
                    ));
                }
                return true;
            },
            RefillStep::Broken => {
                proof {
                    assert(refill_run(
                        *old(ring),
                        *ring,
                        target_occ as nat,
                        block_len as nat,
                        *old(source),
                        source.model(),
                        false,
                        models,
                        blocks,
                        rings,
                    ));
                }
                return false;
            },
            RefillStep::Push(block) => {
                let ghost before = *ring;
                let n: usize = push_slice(ring, block.as_slice());
                vacant = vacant_len(ring);
                occupied = occupied_len(ring);
                proof {
                    let next_models = models.push(source.model());
                    let next_blocks = blocks.push(block@);
                    let next_rings = rings.push(*ring);
                    assert forall|i: int| 0 <= i < next_blocks.len() implies old(source).yields(
                        #[trigger] next_models[i],
                        YieldView::Block(next_blocks[i]),
                        next_models[i + 1],
                    ) by {
                        if i < blocks.len() {
                            assert(next_models[i] == models[i]);
                            assert(next_models[i + 1] == models[i + 1]);
                        }
                    }
                    assert(written(*ring).len() == written(before).len() + n);
                    assert(gives(before, block@, *ring));
                    assert forall|i: int| 0 <= i < next_blocks.len() implies {
                        &&& wants_block(
                            room(#[trigger] next_rings[i]),
                            fill(next_rings[i]),
                            target_occ as nat,
                            block_len as nat,
                        )
                        &&& gives(next_rings[i], next_blocks[i], next_rings[i + 1])
                    } by {
                        if i < blocks.len() {
                            assert(next_rings[i] == rings[i]);
                            assert(next_rings[i + 1] == rings[i + 1]);
                        }
                    }
                    models = next_models;
                    blocks = next_blocks;
                    rings = next_rings;
                }
            },
        }
    }
}

/// A playout feeds a ring with one block after the other.
impl BlockSource for Playout {
    type Model = PlayoutView;

    open spec fn model(&self) -> PlayoutView {
        self.view()
    }

    open spec fn fit(&self) -> bool {
        self.wf()
    }

    open spec fn left(&self) -> nat {
        self.view().reserve()
    }

    /// A block comes exactly where there is one to play, and is that one.
    open spec fn yields(&self, before: PlayoutView, outcome: YieldView, after: PlayoutView) -> bool {
        match outcome {
            YieldView::Block(b) => {
                &&& before.can_play()
                &&& b == before.next_block().0
                &&& after == before.played()
            },
            YieldView::Dry => !before.can_play() && after == before,
            YieldView::Broken => false,
        }
    }

    fn next(&mut self) -> Yield {
        match self.next_block() {
            Some((samples, _)) => Yield::Block(samples),
            None => Yield::Dry,
        }
    }
}

/// No block that the playout can come up with is longer than `longest`.
pub open spec fn blocks_within(play: PlayoutView, longest: nat) -> bool {
    &&& forall|k: int|
        0 <= k < play.jitter.window.len() ==> match #[trigger] play.jitter.window[k] {
            Some(b) => b.0.len() <= longest,
            None => true,
        }
    &&& match play.shape {
        Some(s) => s.0 <= longest,
        None => true,
    }
}

proof fn run_stays_within(
    play: Playout,
    models: Seq<PlayoutView>,
    blocks: Seq<Seq<u32>>,
    longest: nat,
    n: int,
)
    requires
        yielded(play, models, blocks),
        models[0].valid(),
        blocks_within(models[0], longest),
        0 <= n <= blocks.len(),
    ensures
        models[n].valid(),
        blocks_within(models[n], longest),
        forall|i: int| 0 <= i < n ==> (#[trigger] blocks[i]).len() <= longest,
    decreases n,
{
    if n > 0 {
        run_stays_within(play, models, blocks, longest, n - 1);
        let before = models[n - 1];
        assert(play.yields(before, YieldView::Block(blocks[n - 1]), models[n - 1 + 1]));
        let window = before.jitter.window;
        assert(match window[0] {
            Some(b) => b.0.len() <= longest,
            None => true,
        });
        let after = models[n].jitter.window;
        assert forall|k: int| 0 <= k < after.len() implies match #[trigger] after[k] {
            Some(b) => b.0.len() <= longest,
            None => true,
        } by {
            if k < window.len() - 1 {
                assert(after[k] == window[k + 1]);
            }
        }
    }
}

/// A ring that is refilled from a playout never grows past its target by more
/// than a block: it holds no more than it did, or less than the target and the
/// longest block together.
pub proof fn playout_refill_stays_near_its_target(
    ring: SampleProducer,
    ring_after: SampleProducer,
    target_occ: nat,
    block_len: nat,
    play: Playout,
    after: PlayoutView,
    sound: bool,
    longest: nat,
)
    requires
        play.wf(),
        blocks_within(play.view(), longest),
        refilled(ring, ring_after, target_occ, block_len, play, after, sound),
    ensures
        fill(ring_after) <= fill(ring) || fill(ring_after) < target_occ + longest,
{
    let (models, blocks, rings) = choose|
        models: Seq<PlayoutView>,
        blocks: Seq<Seq<u32>>,
        rings: Seq<SampleProducer>,
    | #[trigger]
        refill_run(
            ring,
            ring_after,
            target_occ,
            block_len,
            play,
            after,
            sound,
            models,
            blocks,
            rings,
        );
    play.wf_is_valid();
    run_stays_within(play, models, blocks, longest, blocks.len() as int);
}

proof fn whole_blocks_go_over(
    rings: Seq<SampleProducer>,
    blocks: Seq<Seq<u32>>,
    target_occ: nat,
    block_len: nat,
    n: int,
)
    requires
        given(rings, blocks, target_occ, block_len),
        forall|i: int| 0 <= i < blocks.len() ==> (#[trigger] blocks[i]).len() <= block_len,
        0 <= n <= blocks.len(),
    ensures
        written(rings[n]) == written(rings[0]) + blocks.take(n).flatten(),
        inflow(rings[n]) == inflow(rings[0]),
    decreases n,
{
    if n > 0 {
        whole_blocks_go_over(rings, blocks, target_occ, block_len, n - 1);
        let front = blocks.take(n - 1);
        let block = blocks[n - 1];
        assert(gives(rings[n - 1], block, rings[n - 1 + 1]));
        assert(wants_block(room(rings[n - 1]), fill(rings[n - 1]), target_occ, block_len));
        assert(blocks.take(n) =~= front.push(block));
        front.lemma_flatten_push(block);
        assert(block.take(block.len() as int) =~= block);
        assert(written(rings[n]) =~= written(rings[0]) + blocks.take(n).flatten());
    } else {
        assert(blocks.take(0) =~= Seq::empty());
        assert(blocks.take(0).flatten() =~= Seq::empty());
        assert(written(rings[0]) + Seq::<u32>::empty() =~= written(rings[0]));
    }
}

/// A refill hands its blocks over whole and in the order in which they came, as long
/// as none is longer than what it makes sure there is room for: the ring has been
/// given all that it had been given before, then the blocks one behind the other.
/// Each went over while the ring had room for a block and held less than the target;
/// and it went on until that was so no longer, or the source had nothing to give.
pub proof fn refill_hands_blocks_over_in_order<S: BlockSource>(
    ring: SampleProducer,
    ring_after: SampleProducer,
    target_occ: nat,
    block_len: nat,
    source: S,
    after: S::Model,
    sound: bool,
    models: Seq<S::Model>,
    blocks: Seq<Seq<u32>>,
    rings: Seq<SampleProducer>,
)
    requires
        refill_run(
            ring,
            ring_after,
            target_occ,
            block_len,
            source,
            after,
            sound,
            models,
            blocks,
            rings,
        ),
        forall|i: int| 0 <= i < blocks.len() ==> (#[trigger] blocks[i]).len() <= block_len,
    ensures
        written(ring_after) == written(ring) + blocks.flatten(),
        inflow(ring_after) == inflow(ring),
        forall|i: int|
            0 <= i < blocks.len() ==> room(#[trigger] rings[i]) >= block_len && fill(rings[i])
                < target_occ,
        room(ring_after) >= block_len && fill(ring_after) < target_occ ==> source.yields(
            models.last(),
            if sound {
                YieldView::Dry
            } else {
                YieldView::Broken
            },
            after,
        ),
        room(ring_after) < block_len || fill(ring_after) >= target_occ ==> sound && after
            == models.last(),
{
    let n = blocks.len() as int;
    whole_blocks_go_over(rings, blocks, target_occ, block_len, n);
    assert(blocks.take(n) =~= blocks);
    assert forall|i: int| 0 <= i < n implies room(#[trigger] rings[i]) >= block_len && fill(
        rings[i],
    ) < target_occ by {
        assert(wants_block(room(rings[i]), fill(rings[i]), target_occ, block_len));
    }
}

proof fn blocks_come_in_turn(
    play: Playout,
    models: Seq<PlayoutView>,
    blocks: Seq<Seq<u32>>,
    n: nat,
)
    requires
        yielded(play, models, blocks),
        n <= blocks.len(),
    ensures
        models[n as int] == after_plays(models[0], n),
        forall|i: nat|
            i < n ==> {
                &&& #[trigger] after_plays(models[0], i).can_play()
                &&& blocks[i as int] == after_plays(models[0], i).next_block().0
            },
    decreases n,
{
    if n > 0 {
        let m = (n - 1) as nat;
        blocks_come_in_turn(play, models, blocks, m);
        let before = models[n - 1];
        assert(play.yields(before, YieldView::Block(blocks[n - 1]), models[n - 1 + 1]));
        assert(before == after_plays(models[0], m));
    }
}

/// A ring that is refilled from a playout is given what the playout plays, block
/// after block, from where the playout stood; the playout has then moved on by as
/// many blocks. It goes on until there is no room for a block, the target is
/// reached, or the playout has nothing to play.
pub proof fn playout_is_played_in_turn(
    ring: SampleProducer,
    ring_after: SampleProducer,
    target_occ: nat,
    block_len: nat,
    play: Playout,
    after: PlayoutView,
    sound: bool,
) -> (n: nat)
    requires
        play.wf(),
        blocks_within(play.view(), block_len),
        refilled(ring, ring_after, target_occ, block_len, play, after, sound),
    ensures
        sound,
        after == after_plays(play.view(), n),
        forall|i: nat| i < n ==> #[trigger] after_plays(play.view(), i).can_play(),
        written(ring_after) == written(ring) + Seq::new(
            n,
            |i: int| after_plays(play.view(), i as nat).next_block().0,
        ).flatten(),
        room(ring_after) < block_len || fill(ring_after) >= target_occ || !after.can_play(),
{
    let (models, blocks, rings) = choose|
        models: Seq<PlayoutView>,
        blocks: Seq<Seq<u32>>,
        rings: Seq<SampleProducer>,
    | #[trigger]
        refill_run(
            ring,
            ring_after,
            target_occ,
            block_len,
            play,
            after,
            sound,
            models,
            blocks,
            rings,
        );
    play.wf_is_valid();
    let n = blocks.len();
    run_stays_within(play, models, blocks, block_len, n as int);
    blocks_come_in_turn(play, models, blocks, n);
    refill_hands_blocks_over_in_order(
        ring,
        ring_after,
        target_occ,
        block_len,
        play,
        after,
        sound,
        models,
        blocks,
        rings,
    );
    let want = Seq::new(n, |i: int| after_plays(play.view(), i as nat).next_block().0);
    assert forall|i: int| 0 <= i < n implies #[trigger] blocks[i] == want[i] by {
        assert(after_plays(models[0], i as nat).can_play());
    }
    assert(blocks =~= want);
    n
}

} // verus!
