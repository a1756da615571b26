//! Playouts summed onto shared outputs, round by round.

use vstd::prelude::*;
use crate::jitter::{Playout, PlayoutView};
use crate::layout::cell_position;
use crate::stream::FRAMES_PER_PACKET;
use crate::transport::{
    addends, addends_are_the_routed_samples, adding_up_is_a_fold, block_takes_routes,
    coverage_is_every_routed_sample, covers, packet_covers, peers_sum_on_an_output,
    sum_into_output, sums_to, sums_to_nothing,
};

verus! {

/// What a playout adds to position `j` of the outputs in a round.
pub open spec fn terms_of(
    play: PlayoutView,
    pairs: Seq<(u16, u16)>,
    out_channels: int,
    j: int,
) -> Seq<u32> {
    if play.can_play() {
        addends(
            play.next_block().0,
            play.next_block().1 as int,
            out_channels,
            pairs,
            FRAMES_PER_PACKET as int,
            j,
        )
    } else {
        Seq::empty()
    }
}

/// What the first `n` playouts add to position `j` of the outputs in a round.
pub open spec fn mix_terms(
    plays: Seq<PlayoutView>,
    pairs: Seq<(u16, u16)>,
    out_channels: int,
    n: nat,
    j: int,
) -> Seq<u32>
    decreases n,
{
    if n == 0 {
        Seq::empty()
    } else {
        mix_terms(plays, pairs, out_channels, (n - 1) as nat, j) + terms_of(
            plays[n - 1],
            pairs,
            out_channels,
            j,
        )
    }
}

/// What the playout plays next, if anything, holds the samples that the routes
/// read.
pub open spec fn mixable(play: PlayoutView, pairs: Seq<(u16, u16)>, out_channels: int) -> bool {
    play.can_play() ==> packet_covers(
        play.next_block().0.len() as int,
        play.next_block().1 as int,
        out_channels,
        pairs,
        FRAMES_PER_PACKET as int,
    )
}

/// All that is played next can be mixed.
pub open spec fn all_mixable(
    plays: Seq<PlayoutView>,
    pairs: Seq<(u16, u16)>,
    out_channels: int,
) -> bool {
    forall|i: int| 0 <= i < plays.len() ==> mixable(#[trigger] plays[i], pairs, out_channels)
}

/// Somebody has something to play.
pub open spec fn any_plays(plays: Seq<PlayoutView>) -> bool {
    exists|i: int| 0 <= i < plays.len() && (#[trigger] plays[i]).can_play()
}

/// The playout after a round.
pub open spec fn stepped(play: PlayoutView) -> PlayoutView {
    if play.can_play() {
        play.played()
    } else {
        play
    }
}

/// The first `n` playouts have been added up in `block`.
pub open spec fn sums_up<F: Fn(u32, u32) -> u32>(
    plus: F,
    plays: Seq<PlayoutView>,
    pairs: Seq<(u16, u16)>,
    out_channels: int,
    n: nat,
    block: Seq<u32>,
) -> bool {
    &&& block.len() == FRAMES_PER_PACKET * out_channels
    &&& forall|j: int|
        0 <= j < block.len() ==> sums_to(
            plus,
            0u32,
            mix_terms(plays, pairs, out_channels, n, j),
            #[trigger] block[j],
        )
}

/// `block` is the sum of a round of `plays`: what they play next, each routed to
/// its outputs, on top of silence.
pub open spec fn is_mix<F: Fn(u32, u32) -> u32>(
    plus: F,
    plays: Seq<PlayoutView>,
    pairs: Seq<(u16, u16)>,
    out_channels: int,
    block: Seq<u32>,
) -> bool {
    sums_up(plus, plays, pairs, out_channels, plays.len(), block)
}

/// A bound on the rounds that `plays` can still play.
pub open spec fn rounds_left(plays: Seq<PlayoutView>) -> nat
    decreases plays.len(),
{
    if plays.len() == 0 {
        0
    } else {
        rounds_left(plays.drop_last()) + plays.last().reserve()
    }
}

/// Fewer rounds are left once somebody has played and nobody has gained.
pub proof fn rounds_shrink(before: Seq<PlayoutView>, after: Seq<PlayoutView>)
    requires
        before.len() == after.len(),
        forall|i: int|
            0 <= i < before.len() ==> (#[trigger] after[i]).reserve() <= before[i].reserve(),
    ensures
        rounds_left(after) <= rounds_left(before),
        (exists|i: int|
            0 <= i < before.len() && (#[trigger] after[i]).reserve() < before[i].reserve())
            ==> rounds_left(after) < rounds_left(before),
    decreases before.len(),
{
    if before.len() > 0 {
        let b = before.drop_last();
        let a = after.drop_last();
        assert forall|i: int| 0 <= i < b.len() implies (#[trigger] a[i]).reserve()
            <= b[i].reserve() by {
            assert(after[i].reserve() <= before[i].reserve());
        }
        rounds_shrink(b, a);
        assert(after[after.len() - 1].reserve() <= before[before.len() - 1].reserve());
        if exists|i: int|
            0 <= i < before.len() && (#[trigger] after[i]).reserve() < before[i].reserve() {
            let i = choose|i: int|
                0 <= i < before.len() && (#[trigger] after[i]).reserve() < before[i].reserve();
            if i < b.len() {
                assert(a[i].reserve() < b[i].reserve());
            }
        }
    }
}

/// Silence is the sum of nothing.
pub proof fn silence_sums_up<F: Fn(u32, u32) -> u32>(
    plus: F,
    plays: Seq<PlayoutView>,
    pairs: Seq<(u16, u16)>,
    out_channels: int,
    block: Seq<u32>,
)
    requires
        block.len() == FRAMES_PER_PACKET * out_channels,
        forall|j: int| 0 <= j < block.len() ==> block[j] == 0,
    ensures
        sums_up(plus, plays, pairs, out_channels, 0, block),
{
    assert forall|j: int| 0 <= j < block.len() implies sums_to(
        plus,
        0u32,
        mix_terms(plays, pairs, out_channels, 0, j),
        #[trigger] block[j],
    ) by {
        sums_to_nothing(plus, 0u32);
    }
}

/// One more playout is added to the sum.
pub proof fn sum_grows<F: Fn(u32, u32) -> u32>(
    plus: F,
    plays: Seq<PlayoutView>,
    pairs: Seq<(u16, u16)>,
    out_channels: int,
    n: nat,
    before: Seq<u32>,
    after: Seq<u32>,
)
    requires
        n < plays.len(),
        sums_up(plus, plays, pairs, out_channels, n, before),
        adds(plus, plays[n as int], pairs, out_channels, before, after),
    ensures
        sums_up(plus, plays, pairs, out_channels, n + 1, after),
{
    assert forall|j: int| 0 <= j < after.len() implies sums_to(
        plus,
        0u32,
        mix_terms(plays, pairs, out_channels, n + 1, j),
        #[trigger] after[j],
    ) by {
        assert(before[j] == before[j]);
        peers_sum_on_an_output(
            plus,
            0u32,
            mix_terms(plays, pairs, out_channels, n, j),
            before[j],
            terms_of(plays[n as int], pairs, out_channels, j),
            after[j],
        );
    }
}

/// `after` is `before` with what the playout plays next added in.
pub open spec fn adds<F: Fn(u32, u32) -> u32>(
    plus: F,
    play: PlayoutView,
    pairs: Seq<(u16, u16)>,
    out_channels: int,
    before: Seq<u32>,
    after: Seq<u32>,
) -> bool {
    &&& after.len() == before.len()
    &&& forall|j: int|
        0 <= j < before.len() ==> sums_to(
            plus,
            before[j],
            terms_of(play, pairs, out_channels, j),
            #[trigger] after[j],
        )
}

/// Whether the playout can take part in a round: `None` where it has nothing to
/// play, and otherwise whether what it plays can be mixed.
pub fn takes_part(play: &Playout, pairs: &Vec<(u16, u16)>, out_channels: usize) -> (r: Option<bool>)
    requires
        play.wf(),
    ensures
        r is Some <==> play.view().can_play(),
        r matches Some(ok) ==> ok == mixable(play.view(), pairs@, out_channels as int),
{
    match play.peek_shape() {
        Some((len, channels)) => Some(
            covers(len, channels, out_channels, pairs.as_slice(), FRAMES_PER_PACKET),
        ),
        None => None,
    }
}

/// Plays one playout's next block, if it has one, into a round's sum. `plus` is
/// the addition of two samples.
pub fn add_playout<F: Fn(u32, u32) -> u32>(
    play: &mut Playout,
    block: &mut Vec<u32>,
    pairs: &Vec<(u16, u16)>,
    out_channels: usize,
    plus: &F,
)
    requires
        old(play).wf(),
        mixable(old(play).view(), pairs@, out_channels as int),
        old(block)@.len() == FRAMES_PER_PACKET * out_channels,
        forall|a: u32, b: u32| #[trigger] call_requires(*plus, (a, b)),
    ensures
        final(play).wf(),
        final(play).view() == stepped(old(play).view()),
        old(play).view().can_play() ==> final(play).view().reserve() < old(play).view().reserve(),
        adds(
            *plus,
            old(play).view(),
            pairs@,
            out_channels as int,
            old(block)@,
            final(block)@,
        ),
{
    let ghost before = block@;
    match play.next_block() {
        Some((samples, channels)) => {
            proof {
                block_takes_routes(
                    before.len() as int,
                    channels as int,
                    out_channels as int,
                    pairs@,
                    FRAMES_PER_PACKET as int,
                );
            }
            sum_into_output(
                block.as_mut_slice(),
                samples.as_slice(),
                channels as usize,
                out_channels,
                pairs.as_slice(),
                FRAMES_PER_PACKET as usize,
                plus,
            );
        },
        None => {
            assert forall|j: int| 0 <= j < before.len() implies sums_to(
                *plus,
                before[j],
                terms_of(old(play).view(), pairs@, out_channels as int, j),
                #[trigger] block@[j],
            ) by {
                sums_to_nothing(*plus, before[j]);
            }
        },
    }
}

/// What is added to output `o` of frame `f` in a round: of every playout that has
/// something to play, in order, the samples of that frame which the routes lead
/// there.
pub proof fn round_adds_what_everybody_plays(
    plays: Seq<PlayoutView>,
    pairs: Seq<(u16, u16)>,
    out_channels: int,
    n: nat,
    f: int,
    o: int,
)
    requires
        0 <= f < 64,
        0 <= o < out_channels,
    ensures
        mix_terms(plays, pairs, out_channels, n, f * out_channels + o) == Seq::new(
            n,
            |i: int|
                if plays[i].can_play() {
                    pairs.filter(
                        |p: (u16, u16)| p.1 == o && p.0 < plays[i].next_block().1,
                    ).map_values(
                        |p: (u16, u16)|
                            plays[i].next_block().0[f * plays[i].next_block().1 + p.0],
                    )
                } else {
                    Seq::<u32>::empty()
                },
        ).flatten(),
    decreases n,
{
    let part = |i: int|
        if plays[i].can_play() {
            pairs.filter(|p: (u16, u16)| p.1 == o && p.0 < plays[i].next_block().1).map_values(
                |p: (u16, u16)| plays[i].next_block().0[f * plays[i].next_block().1 + p.0],
            )
        } else {
            Seq::<u32>::empty()
        };
    let parts = Seq::new(n, part);
    if n > 0 {
        let m = (n - 1) as nat;
        round_adds_what_everybody_plays(plays, pairs, out_channels, m, f, o);
        let front = Seq::new(m, part);
        assert(parts =~= front.push(part(m as int)));
        front.lemma_flatten_push(part(m as int));
        let play = plays[m as int];
        if play.can_play() {
            let (samples, channels) = play.next_block();
            addends_are_the_routed_samples(
                samples,
                channels as int,
                out_channels,
                pairs,
                FRAMES_PER_PACKET as int,
                f,
                o,
            );
            let leads = |p: (u16, u16)| p.1 == o && p.0 < channels as int;
            let leads_here = |p: (u16, u16)| p.1 == o && p.0 < plays[m as int].next_block().1;
            assert(leads =~= leads_here);
            let read = |p: (u16, u16)| samples[f * (channels as int) + p.0];
            let read_here = |p: (u16, u16)|
                plays[m as int].next_block().0[f * plays[m as int].next_block().1 + p.0];
            assert(read =~= read_here);
        } else {
            assert(front.flatten() + Seq::<u32>::empty() =~= front.flatten());
        }
    } else {
        assert(parts =~= Seq::empty());
        assert(parts.flatten() =~= Seq::empty());
    }
}

/// A mix is, at every output of every frame, the sum of what everybody who has
/// something to play has routed there, on top of silence.
pub proof fn mix_is_the_sum_of_what_everybody_plays<F: Fn(u32, u32) -> u32>(
    plus: F,
    sum: spec_fn(u32, u32) -> u32,
    plays: Seq<PlayoutView>,
    pairs: Seq<(u16, u16)>,
    out_channels: int,
    block: Seq<u32>,
    f: int,
    o: int,
)
    requires
        forall|a: u32, b: u32, c: u32| #[trigger]
            call_ensures(plus, (a, b), c) ==> c == sum(a, b),
        is_mix(plus, plays, pairs, out_channels, block),
        0 <= f < 64,
        0 <= o < out_channels,
    ensures
        block.len() == 64 * out_channels,
        block[f * out_channels + o] == Seq::new(
            plays.len(),
            |i: int|
                if plays[i].can_play() {
                    pairs.filter(
                        |p: (u16, u16)| p.1 == o && p.0 < plays[i].next_block().1,
                    ).map_values(
                        |p: (u16, u16)|
                            plays[i].next_block().0[f * plays[i].next_block().1 + p.0],
                    )
                } else {
                    Seq::<u32>::empty()
                },
        ).flatten().fold_left(0u32, sum),
{
    cell_position(f, o, out_channels, 64);
    let j = f * out_channels + o;
    round_adds_what_everybody_plays(plays, pairs, out_channels, plays.len(), f, o);
    adding_up_is_a_fold(
        plus,
        sum,
        0u32,
        mix_terms(plays, pairs, out_channels, plays.len(), j),
        block[j],
    );
}

/// Whoever has something to play moves on by one block in a round, and nobody else;
/// and a round can be mixed exactly where nobody's block is too short for the
/// routes.
pub proof fn round_moves_on_whoever_plays(
    plays: Seq<PlayoutView>,
    pairs: Seq<(u16, u16)>,
    out_channels: int,
    i: int,
)
    requires
        0 <= i < plays.len(),
    ensures
        plays[i].can_play() ==> stepped(plays[i]) == plays[i].played() && any_plays(plays),
        !plays[i].can_play() ==> stepped(plays[i]) == plays[i],
        any_plays(plays) ==> exists|k: int| 0 <= k < plays.len() && (#[trigger] plays[k]).can_play(),
        all_mixable(plays, pairs, out_channels) && plays[i].can_play() ==> forall|f: int, k: int|
            0 <= f < 64 && 0 <= k < pairs.len() && (#[trigger] pairs[k]).0
                < plays[i].next_block().1 && pairs[k].1 < out_channels ==> #[trigger] (f
                * plays[i].next_block().1) + pairs[k].0 < plays[i].next_block().0.len(),
        !mixable(plays[i], pairs, out_channels) ==> plays[i].can_play() && exists|f: int, k: int|
            0 <= f < 64 && 0 <= k < pairs.len() && (#[trigger] pairs[k]).0
                < plays[i].next_block().1 && pairs[k].1 < out_channels && #[trigger] (f
                * plays[i].next_block().1) + pairs[k].0 >= plays[i].next_block().0.len(),
{
    coverage_is_every_routed_sample(
        plays[i].next_block().0.len() as int,
        plays[i].next_block().1 as int,
        out_channels,
        pairs,
        64,
    );
    if all_mixable(plays, pairs, out_channels) {
        assert(mixable(plays[i], pairs, out_channels));
    }
}

} // verus!
