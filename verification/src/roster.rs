//! The other members of a group, each with a pair of virtual devices on this
//! machine.

use vstd::prelude::*;
use crate::config::{Addr, Ip};
use crate::jitter::{after_plays, successor, Ingest, Playout, PlayoutView};
use crate::mix::{
    add_playout, all_mixable, any_plays, is_mix, mix_is_the_sum_of_what_everybody_plays, mixable,
    rounds_left, rounds_shrink, silence_sums_up, stepped, sum_grows, sums_up, takes_part,
};
use crate::osc_msg::Advertisement;
use crate::packet::{reading, AudioPacket, PacketView};
use crate::remote::{concerns_us, is_for_us, MEMBER_TIMEOUT_NS};
use crate::ring::{
    blocks_within, fill, inflow, outflow, playout_is_played_in_turn, ready, refill, refill_run,
    refilled, room, sample_ring, taken, take_block, written, yielded, BlockSource, SampleConsumer,
    SampleProducer, Yield, YieldView, RING_FRAMES,
};
use crate::stream::FRAMES_PER_PACKET;
use crate::transport::{carried_packet_arrives, carries, header_rate, rate_for_header, Datagram};

verus! {

/// A ring of so many channels can be addressed.
pub open spec fn ring_fits(channels: nat) -> bool {
    channels * RING_FRAMES * 4 <= isize::MAX
}

/// The ends are those of one new ring for so many channels.
pub open spec fn is_fresh_ring(p: SampleProducer, c: SampleConsumer, channels: nat) -> bool {
    &&& inflow(p) == outflow(c)
    &&& written(p) == Seq::<u32>::empty()
    &&& taken(c) == Seq::<u32>::empty()
    &&& room(p) == RING_FRAMES * channels
}

/// A remote member we've learned about and are presenting as virtual device(s).
pub struct Member {
    pub ip: Ip,
    /// Stable per-run id; a change means the peer restarted (→ rebuild devices).
    pub node_id: u128,
    pub device_name: String,
    /// Flow 1: the peer's outputs.
    pub out_play: Playout,
    /// The ring of the peer's source device; `None` if it has none.
    pub feed: Option<SampleProducer>,
    /// The peer's output channel count.
    pub source_width: usize,
    /// Flow 3: the ring of the peer's sink device; `None` if it has none.
    pub intake: Option<SampleConsumer>,
    /// Channels the peer accepts.
    pub peer_inputs: usize,
    /// The sequence number of the next packet that we send the peer.
    pub in_seq: u32,
    /// Flow 4: what the peer plays into our inputs.
    pub return_play: Playout,
    /// When the peer was heard last, in nanoseconds of a steady clock.
    pub last_seen: u128,
}

/// What a [`Member`] holds.
pub struct MemberView {
    pub ip: Ip,
    pub node_id: u128,
    pub device_name: Seq<char>,
    pub out_play: PlayoutView,
    pub feed: Option<SampleProducer>,
    pub source_width: nat,
    pub intake: Option<SampleConsumer>,
    pub peer_inputs: nat,
    pub in_seq: u32,
    pub return_play: PlayoutView,
    pub last_seen: u128,
}

impl View for Member {
    type V = MemberView;

    open spec fn view(&self) -> MemberView {
        MemberView {
            ip: self.ip,
            node_id: self.node_id,
            device_name: self.device_name@,
            out_play: self.out_play.view(),
            feed: self.feed,
            source_width: self.source_width as nat,
            intake: self.intake,
            peer_inputs: self.peer_inputs as nat,
            in_seq: self.in_seq,
            return_play: self.return_play.view(),
            last_seen: self.last_seen,
        }
    }
}

impl Member {
    /// Both playouts are in order, and the rings can be addressed.
    pub open spec fn wf(&self) -> bool {
        &&& self.out_play.wf()
        &&& self.return_play.wf()
        &&& ring_fits(self.source_width as nat)
        &&& ring_fits(self.peer_inputs as nat)
    }
}

impl MemberView {
    /// The member was heard less than the timeout ago.
    pub open spec fn is_live(self, now: u128) -> bool {
        now - self.last_seen < MEMBER_TIMEOUT_NS
    }
}

/// The views of a list of members.
pub open spec fn member_views(members: Seq<Member>) -> Seq<MemberView> {
    members.map_values(|m: Member| m@)
}

/// Where the member of this address stands in the list, if it is there.
pub open spec fn seat(members: Seq<MemberView>, ip: Ip) -> Option<int>
    decreases members.len(),
{
    if members.len() == 0 {
        None
    } else if members.last().ip == ip {
        Some(members.len() - 1)
    } else {
        seat(members.drop_last(), ip)
    }
}

/// The member of this address is in the list, in this run of its program.
pub open spec fn known_run(members: Seq<MemberView>, ip: Ip, node_id: u128) -> bool {
    match seat(members, ip) {
        Some(i) => members[i].node_id == node_id,
        None => false,
    }
}

/// The list with `m` in it, in place of the member of the same address.
pub open spec fn seated(members: Seq<MemberView>, m: MemberView) -> Seq<MemberView> {
    match seat(members, m.ip) {
        Some(i) => members.update(i, m),
        None => members.push(m),
    }
}

/// No address stands twice in the list.
pub open spec fn distinct(members: Seq<MemberView>) -> bool {
    forall|i: int, j: int|
        0 <= i < j < members.len() ==> (#[trigger] members[i]).ip != (#[trigger] members[j]).ip
}

/// A seat is where its address is.
pub proof fn seat_holds(members: Seq<MemberView>, ip: Ip)
    ensures
        match seat(members, ip) {
            Some(i) => 0 <= i < members.len() && members[i].ip == ip,
            None => forall|k: int| 0 <= k < members.len() ==> (#[trigger] members[k]).ip != ip,
        },
    decreases members.len(),
{
    if members.len() > 0 {
        seat_holds(members.drop_last(), ip);
        assert forall|k: int|
            0 <= k < members.len() && seat(members, ip) is None implies (#[trigger] members[k]).ip
            != ip by {
            if k < members.len() - 1 {
                assert(members.drop_last()[k] == members[k]);
            }
        }
    }
}

/// Seating a member never puts an address into the list twice.
pub proof fn seating_keeps_distinct(members: Seq<MemberView>, m: MemberView)
    requires
        distinct(members),
    ensures
        distinct(seated(members, m)),
        seat(seated(members, m), m.ip) is Some,
        seated(members, m)[seat(seated(members, m), m.ip)->0] == m,
{
    seat_holds(members, m.ip);
    let after = seated(members, m);
    assert forall|i: int, j: int| 0 <= i < j < after.len() implies (#[trigger] after[i]).ip != (
    #[trigger] after[j]).ip by {
        if j < members.len() {
            assert(members[i].ip != members[j].ip);
        } else {
            assert(members[i].ip != m.ip);
        }
    }
    seat_holds(after, m.ip);
    let k = match seat(members, m.ip) {
        Some(i) => i,
        None => members.len() as int,
    };
    assert(after[k] == m);
    let s = seat(after, m.ip);
    assert(s is Some);
    if s->0 < k {
        assert(after[s->0].ip != after[k].ip);
    } else if k < s->0 {
        assert(after[k].ip != after[s->0].ip);
    }
}

/// A change of a member that keeps its address puts no address into the list
/// twice.
proof fn changing_keeps_distinct(members: Seq<MemberView>, i: int, m: MemberView)
    requires
        distinct(members),
        0 <= i < members.len(),
        m.ip == members[i].ip,
    ensures
        distinct(members.update(i, m)),
{
    let after = members.update(i, m);
    assert forall|a: int, b: int| 0 <= a < b < after.len() implies (#[trigger] after[a]).ip != (
    #[trigger] after[b]).ip by {
        assert(members[a].ip != members[b].ip);
    }
}

/// The live members of a group, one per address.
pub struct Roster {
    pub members: Vec<Member>,
}

/// A member that is about to join, and the ends of its rings that stay with us.
pub struct Joining {
    pub ip: Ip,
    pub node_id: u128,
    pub device_name: String,
    pub source_width: usize,
    pub peer_inputs: usize,
    pub feed: Option<SampleProducer>,
    pub intake: Option<SampleConsumer>,
}

/// What an advertisement leads to.
pub enum Verdict {
    /// It is not for us, or the peer shares nothing.
    Ignored,
    /// A known member is still there.
    Refreshed,
    /// A new or restarted member: build its devices on these ring ends, a
    /// source that plays out of the first and a sink that records into the
    /// second, and welcome it then.
    Build(Joining, Option<SampleConsumer>, Option<SampleProducer>),
}

/// A member as it joins.
pub open spec fn joined_member(
    j: Joining,
    source_built: bool,
    sink_built: bool,
    prime: nat,
    now: u128,
) -> MemberView {
    MemberView {
        ip: j.ip,
        node_id: j.node_id,
        device_name: j.device_name@,
        out_play: PlayoutView::fresh(prime),
        feed: if source_built {
            j.feed
        } else {
            None
        },
        source_width: j.source_width as nat,
        intake: if sink_built {
            j.intake
        } else {
            None
        },
        peer_inputs: j.peer_inputs as nat,
        in_seq: 0,
        return_play: PlayoutView::fresh(prime),
        last_seen: now,
    }
}

impl View for Roster {
    type V = Seq<MemberView>;

    open spec fn view(&self) -> Seq<MemberView> {
        member_views(self.members@)
    }
}

impl Roster {
    /// Every member is in order, and no address stands twice.
    pub open spec fn wf(&self) -> bool {
        &&& distinct(self@)
        &&& forall|i: int| 0 <= i < self.members@.len() ==> (#[trigger] self.members@[i]).wf()
    }

    /// A roster that knows nobody.
    pub fn new() -> (r: Roster)
        ensures
            r.wf(),
            r@ == Seq::<MemberView>::empty(),
    {
        let r = Roster { members: Vec::new() };
        assert(r@ =~= Seq::<MemberView>::empty());
        r
    }

    fn find(&self, ip: Ip) -> (r: Option<usize>)
        ensures
            match r {
                Some(i) => seat(self@, ip) == Some(i as int) && i < self.members@.len(),
                None => seat(self@, ip) is None,
            },
    {
        let ghost all = self@;
        let mut n: usize = self.members.len();
        assert(all.take(n as int) =~= all);
        while n > 0
            invariant
                n <= self.members@.len(),
                all == self@,
                seat(all.take(n as int), ip) == seat(all, ip),
            decreases n,
        {
            assert(all.take(n as int).last() == self.members@[n - 1]@);
            assert(all.take(n as int).drop_last() =~= all.take(n - 1));
            if self.members[n - 1].ip == ip {
                return Some(n - 1);
            }
            n = n - 1;
        }
        None
    }

    /// Applies an incoming advertisement: ignores foreign groups, our own echo,
    /// and non-roster sources; refreshes a known member; asks for the virtual
    /// device(s) of a new member or one that restarted (its `node_id` changed).
    /// A peer's outputs become a source device that is recorded; its inputs
    /// become a sink device that is played into.
    pub fn handle_advertisement(
        &mut self,
        ad: Advertisement,
        src_ip: Ip,
        group_name: &str,
        my_node_id: u128,
        group: &Vec<Ip>,
        now: u128,
    ) -> (v: Verdict)
        requires
            old(self).wf(),
            concerns_us(ad@, src_ip, group_name@, my_node_id, group@) && !known_run(
                old(self)@,
                src_ip,
                ad.node_id,
            ) ==> ring_fits(ad.outputs@.len()) && ring_fits(ad.inputs@.len()),
        ensures
            final(self).wf(),
            ({
                let known = seat(old(self)@, src_ip);
                let ours = concerns_us(ad@, src_ip, group_name@, my_node_id, group@);
                let same_run = known_run(old(self)@, src_ip, ad.node_id);
                let shares = ad.outputs@.len() > 0 || ad.inputs@.len() > 0;
                &&& v is Ignored <==> !ours || (!same_run && !shares)
                &&& v is Refreshed <==> ours && same_run
                &&& v is Build <==> ours && !same_run && shares
                &&& final(self)@ == if v is Refreshed {
                    old(self)@.update(
                        known->0,
                        (MemberView { last_seen: now, ..old(self)@[known->0] }),
                    )
                } else {
                    old(self)@
                }
                &&& v matches Verdict::Build(j, source, sink) ==> {
                    &&& j.ip == src_ip
                    &&& j.node_id == ad.node_id
                    &&& j.device_name@ == ad.device_name@
                    &&& j.source_width == ad.outputs@.len()
                    &&& j.peer_inputs == ad.inputs@.len()
                    &&& j.feed is Some <==> ad.outputs@.len() > 0
                    &&& source is Some <==> ad.outputs@.len() > 0
                    &&& ad.outputs@.len() > 0 ==> is_fresh_ring(
                        j.feed->0,
                        source->0,
                        ad.outputs@.len(),
                    )
                    &&& j.intake is Some <==> ad.inputs@.len() > 0
                    &&& sink is Some <==> ad.inputs@.len() > 0
                    &&& ad.inputs@.len() > 0 ==> is_fresh_ring(
                        sink->0,
                        j.intake->0,
                        ad.inputs@.len(),
                    )
                }
            }),
    {
        if !is_for_us(&ad, src_ip, group_name, my_node_id, group) {
            return Verdict::Ignored;
        }
        // Known member, same run: just refresh liveness.
        if let Some(i) = self.find(src_ip) {
            assert(self@[i as int] == self.members@[i as int]@);
            if self.members[i].node_id == ad.node_id {
                self.members[i].last_seen = now;
                proof {
                    assert(self@ =~= old(self)@.update(
                        i as int,
                        (MemberView { last_seen: now, ..old(self)@[i as int] }),
                    ));
                    changing_keeps_distinct(old(self)@, i as int, self@[i as int]);
                }
                return Verdict::Refreshed;
            }
        }
        let n_out: usize = ad.outputs.len();
        let n_in: usize = ad.inputs.len();
        if n_out == 0 && n_in == 0 {
            return Verdict::Ignored;  // peer shares nothing
        }
        let (feed, source) = if n_out > 0 {
            let (p, c) = sample_ring(RING_FRAMES, n_out);
            (Some(p), Some(c))
        } else {
            (None, None)
        };
        let (intake, sink) = if n_in > 0 {
            let (p, c) = sample_ring(RING_FRAMES, n_in);
            (Some(c), Some(p))
        } else {
            (None, None)
        };
        Verdict::Build(
            Joining {
                ip: src_ip,
                node_id: ad.node_id,
                device_name: ad.device_name,
                source_width: n_out,
                peer_inputs: n_in,
                feed,
                intake,
            },
            source,
            sink,
        )
    }

    /// Takes in a member whose devices have been built, as far as they could be.
    /// It takes the place of the member of its address; true where there was
    /// one, whose devices are to be torn down.
    pub fn welcome(
        &mut self,
        joining: Joining,
        source_built: bool,
        sink_built: bool,
        prime: usize,
        now: u128,
    ) -> (replaced: bool)
        requires
            old(self).wf(),
            ring_fits(joining.source_width as nat),
            ring_fits(joining.peer_inputs as nat),
        ensures
            final(self).wf(),
            replaced == (seat(old(self)@, joining.ip) is Some),
            final(self)@ == seated(
                old(self)@,
                joined_member(joining, source_built, sink_built, prime as nat, now),
            ),
    {
        let ip = joining.ip;
        let ghost view = joined_member(joining, source_built, sink_built, prime as nat, now);
        let member = Member {
            ip,
            node_id: joining.node_id,
            device_name: joining.device_name,
            out_play: Playout::new(prime),
            feed: if source_built {
                joining.feed
            } else {
                None
            },
            source_width: joining.source_width,
            intake: if sink_built {
                joining.intake
            } else {
                None
            },
            peer_inputs: joining.peer_inputs,
            in_seq: 0,
            return_play: Playout::new(prime),
            last_seen: now,
        };
        assert(member@ == view);
        proof {
            seating_keeps_distinct(self@, view);
        }
        match self.find(ip) {
            Some(i) => {
                self.members.set(i, member);
                assert(self@ =~= old(self)@.update(i as int, view));
                true
            },
            None => {
                self.members.push(member);
                assert(self@ =~= old(self)@.push(view));
                false
            },
        }
    }

    /// Flow 1: takes in a datagram with a peer's outputs. `None` where it is not
    /// from a member, or no packet.
    pub fn on_outputs(&mut self, buf: &[u8], from: Ip) -> (r: Option<Ingest>)
        requires
            old(self).wf(),
        ensures
            final(self).wf(),
            match (seat(old(self)@, from), reading(buf@)) {
                (Some(i), Some(p)) => {
                    let m = old(self)@[i];
                    &&& r is Some
                    &&& r->0.resynced == m.out_play.jitter.is_desync(p.seq)
                    &&& r->0.newly_primed == (!m.out_play.jitter.primed && m.out_play.inserted(
                        p,
                    ).jitter.primed)
                    &&& final(self)@ == old(self)@.update(
                        i,
                        (MemberView { out_play: m.out_play.inserted(p), ..m }),
                    )
                },
                _ => r is None && final(self)@ == old(self)@,
            },
    {
        let i: usize = match self.find(from) {
            Some(i) => i,
            None => {
                return None;
            },
        };
        match AudioPacket::decode(buf) {
            Some(packet) => {
                let ghost m = self@[i as int];
                let ghost p = packet@;
                let out = self.members[i].out_play.insert(packet);
                proof {
                    let n = MemberView { out_play: m.out_play.inserted(p), ..m };
                    assert(self@ =~= old(self)@.update(i as int, n));
                    changing_keeps_distinct(old(self)@, i as int, n);
                }
                Some(out)
            },
            None => None,
        }
    }

    /// Flow 4: takes in a datagram that a peer played into our inputs. `accept`
    /// is whether we have any. `None` where we have not, and where it is not from
    /// a member, or no packet.
    pub fn on_returns(&mut self, buf: &[u8], from: Ip, accept: bool) -> (r: Option<Ingest>)
        requires
            old(self).wf(),
        ensures
            final(self).wf(),
            match (seat(old(self)@, from), reading(buf@)) {
                (Some(i), Some(p)) if accept => {
                    let m = old(self)@[i];
                    &&& r is Some
                    &&& r->0.resynced == m.return_play.jitter.is_desync(p.seq)
                    &&& r->0.newly_primed == (!m.return_play.jitter.primed
                        && m.return_play.inserted(p).jitter.primed)
                    &&& final(self)@ == old(self)@.update(
                        i,
                        (MemberView { return_play: m.return_play.inserted(p), ..m }),
                    )
                },
                _ => r is None && final(self)@ == old(self)@,
            },
    {
        if !accept {
            return None;
        }
        let i: usize = match self.find(from) {
            Some(i) => i,
            None => {
                return None;
            },
        };
        match AudioPacket::decode(buf) {
            Some(packet) => {
                let ghost m = self@[i as int];
                let ghost p = packet@;
                let out = self.members[i].return_play.insert(packet);
                proof {
                    let n = MemberView { return_play: m.return_play.inserted(p), ..m };
                    assert(self@ =~= old(self)@.update(i as int, n));
                    changing_keeps_distinct(old(self)@, i as int, n);
                }
                Some(out)
            },
            None => None,
        }
    }

    /// Forgets members that stopped advertising (quit / unreachable). Hands out
    /// the address and device name of each, so that its devices can be removed.
    pub fn expire(&mut self, now: u128) -> (gone: Vec<(Ip, String)>)
        requires
            old(self).wf(),
        ensures
            final(self).wf(),
            final(self)@ == old(self)@.filter(|m: MemberView| m.is_live(now)),
            gone@.map_values(|g: (Ip, String)| (g.0, g.1@)) == old(self)@.filter(
                |m: MemberView| !m.is_live(now),
            ).map_values(|m: MemberView| (m.ip, m.device_name)),
    {
        let ghost all = self@;
        let ghost live = |m: MemberView| m.is_live(now);
        let ghost dead = |m: MemberView| !m.is_live(now);
        let ghost farewell = |m: MemberView| (m.ip, m.device_name);
        let ghost reading_of = |g: (Ip, String)| (g.0, g.1@);
        let mut members: Vec<Member> = Vec::new();
        std::mem::swap(&mut members, &mut self.members);
        let ghost list = members@;
        let mut kept: Vec<Member> = Vec::new();
        let mut gone: Vec<(Ip, String)> = Vec::new();
        proof {
            reveal(Seq::filter);
            assert(all.take(0) =~= Seq::empty());
            assert(all.take(0).filter(live) =~= Seq::empty());
            assert(all.take(0).filter(dead) =~= Seq::empty());
        }
        for m in it: members
            invariant
                it.seq() == list,
                all == member_views(list),
                live == (|m: MemberView| m.is_live(now)),
                dead == (|m: MemberView| !m.is_live(now)),
                farewell == (|m: MemberView| (m.ip, m.device_name)),
                reading_of == (|g: (Ip, String)| (g.0, g.1@)),
                forall|i: int| 0 <= i < list.len() ==> (#[trigger] list[i]).wf(),
                forall|i: int| 0 <= i < kept@.len() ==> (#[trigger] kept@[i]).wf(),
                member_views(kept@) =~= all.take(it.index()).filter(live),
                gone@.map_values(reading_of) =~= all.take(it.index()).filter(dead).map_values(
                    farewell,
                ),
        {
            let ghost prev_kept = kept@;
            let ghost prev_gone = gone@;
            let ghost k = it.index();
            proof {
                reveal(Seq::filter);
                assert(all.take(k + 1).drop_last() =~= all.take(k));
                assert(all.take(k + 1).last() == m@);
            }
            let elapsed: u128 = now.saturating_sub(m.last_seen);
            if elapsed < MEMBER_TIMEOUT_NS {
                kept.push(m);
                assert(member_views(kept@) =~= member_views(prev_kept).push(m@));
            } else {
                gone.push((m.ip, m.device_name));
                proof {
                    assert(gone@.map_values(reading_of) =~= prev_gone.map_values(reading_of).push(
                        farewell(m@),
                    ));
                    let before = all.take(k).filter(dead);
                    assert(before.push(m@).map_values(farewell) =~= before.map_values(
                        farewell,
                    ).push(farewell(m@)));
                }
            }
        }
        assert(all.take(all.len() as int) =~= all);
        self.members = kept;
        proof {
            filtering_keeps_distinct(all, live);
        }
        gone
    }
}

/// Leaving members out puts no address into the list twice.
proof fn filtering_keeps_distinct(members: Seq<MemberView>, keep: spec_fn(MemberView) -> bool)
    requires
        distinct(members),
    ensures
        distinct(members.filter(keep)),
        forall|i: int|
            0 <= i < members.filter(keep).len() ==> members.contains(
                #[trigger] members.filter(keep)[i],
            ),
    decreases members.len(),
{
    reveal(Seq::filter);
    if members.len() > 0 {
        let front = members.drop_last();
        assert forall|a: int, b: int| 0 <= a < b < front.len() implies (#[trigger] front[a]).ip != (
        #[trigger] front[b]).ip by {
            assert(members[a].ip != members[b].ip);
        }
        filtering_keeps_distinct(front, keep);
        let f = front.filter(keep);
        let after = members.filter(keep);
        assert forall|i: int| 0 <= i < after.len() implies members.contains(
            #[trigger] after[i],
        ) by {
            if i < f.len() {
                assert(front.contains(f[i]));
                let k = choose|k: int| 0 <= k < front.len() && front[k] == f[i];
                assert(members[k] == after[i]);
            } else {
                assert(members[members.len() - 1] == after[i]);
            }
        }
        assert forall|a: int, b: int| 0 <= a < b < after.len() implies (#[trigger] after[a]).ip != (
        #[trigger] after[b]).ip by {
            assert(front.contains(f[a]));
            let k = choose|k: int| 0 <= k < front.len() && front[k] == f[a];
            if b < f.len() {
                assert(f[a].ip != f[b].ip);
            } else {
                assert(members[k].ip != members[members.len() - 1].ip);
            }
        }
    }
}

/// Flow 1 for one member: its source device's ring has been topped up to the
/// target depth with what its playout had.
pub open spec fn fed(before: Member, after: Member, target_frames: nat) -> bool {
    match (before.feed, after.feed) {
        (Some(ring), Some(ring_after)) => {
            &&& refilled(
                ring,
                ring_after,
                target_frames * before.source_width as nat,
                FRAMES_PER_PACKET as nat * before.source_width as nat,
                before.out_play,
                after.out_play.view(),
                true,
            )
            &&& after@ == (MemberView {
                feed: after.feed,
                out_play: after.out_play.view(),
                ..before@
            })
        },
        (None, None) => after@ == before@,
        _ => false,
    }
}

impl Member {
    /// Keeps the source device's ring topped up to the target depth, paced by how
    /// fast that device drains it.
    pub fn feed_source(&mut self, target_frames: usize)
        requires
            old(self).wf(),
            target_frames <= RING_FRAMES,
        ensures
            final(self).wf(),
            fed(*old(self), *final(self), target_frames as nat),
    {
        let width: usize = self.source_width;
        proof {
            ring_bounds(width, target_frames);
        }
        match self.feed.take() {
            Some(ring) => {
                let mut ring = ring;
                let _sound = refill(
                    &mut ring,
                    target_frames * width,
                    FRAMES_PER_PACKET as usize * width,
                    &mut self.out_play,
                );
                self.feed = Some(ring);
            },
            None => {},
        }
    }

    /// Flow 3: drains a packet's worth of what local apps played into the peer's
    /// sink, as a datagram to the peer. `None` where there is not so much.
    pub fn next_sink_packet(&mut self, in_port: u16, sample_rate: u32) -> (r: Option<Datagram>)
        requires
            old(self).wf(),
        ensures
            final(self).wf(),
            final(self)@ == (MemberView {
                intake: final(self).intake,
                in_seq: final(self).in_seq,
                ..old(self)@
            }),
            final(self).intake is Some <==> old(self).intake is Some,
            old(self).intake is Some ==> outflow(final(self).intake->0) == outflow(
                old(self).intake->0,
            ),
            match r {
                Some(d) => {
                    &&& old(self).intake is Some
                    &&& old(self).peer_inputs > 0
                    &&& final(self).in_seq == successor(old(self).in_seq)
                    &&& exists|block: Seq<u32>|
                        {
                            &&& block.len() == FRAMES_PER_PACKET * old(self).peer_inputs
                            &&& #[trigger] (taken(old(self).intake->0) + block) == taken(
                                final(self).intake->0,
                            )
                            &&& ready(old(self).intake->0) <= ready(final(self).intake->0)
                                + block.len()
                            &&& taken(final(self).intake->0).is_prefix_of(
                                outflow(final(self).intake->0),
                            )
                            &&& carries(
                                d,
                                Addr { ip: old(self).ip, port: in_port },
                                sink_packet(old(self)@, sample_rate, block),
                            )
                        }
                },
                None => {
                    &&& final(self).in_seq == old(self).in_seq
                    &&& old(self).intake is Some ==> taken(final(self).intake->0) == taken(
                        old(self).intake->0,
                    )
                    &&& old(self).intake is Some && old(self).peer_inputs > 0 ==> ready(
                        old(self).intake->0,
                    ) <= ready(final(self).intake->0) < FRAMES_PER_PACKET * old(self).peer_inputs
                },
            },
    {
        proof {
            ring_bounds(self.peer_inputs, 0);
        }
        let need: usize = FRAMES_PER_PACKET as usize * self.peer_inputs;
        if need == 0 {
            return None;
        }
        let mut intake = match self.intake.take() {
            Some(c) => c,
            None => {
                return None;
            },
        };
        let mut block: Vec<u32> = vec![0u32; need];
        let whole = take_block(&mut intake, block.as_mut_slice());
        self.intake = Some(intake);
        if !whole {
            return None;
        }
        let ghost samples = block@;
        let packet = AudioPacket {
            seq: self.in_seq,
            sample_rate: rate_for_header(sample_rate),
            channels: (self.peer_inputs % 256) as u8,
            frames: FRAMES_PER_PACKET,
            samples: block,
        };
        assert(packet@ == sink_packet(old(self)@, sample_rate, samples));
        assert(taken(old(self).intake->0) + samples == taken(self.intake->0));
        self.in_seq = self.in_seq.wrapping_add(1);
        Some(Datagram { dest: Addr { ip: self.ip, port: in_port }, bytes: packet.encode() })
    }
}

/// The packet that a member is sent of what was played into its sink.
pub open spec fn sink_packet(m: MemberView, sample_rate: u32, block: Seq<u32>) -> PacketView {
    PacketView {
        seq: m.in_seq,
        sample_rate: header_rate(sample_rate),
        channels: (m.peer_inputs % 256) as u8,
        frames: FRAMES_PER_PACKET,
        samples: block,
    }
}

/// Products of a depth in frames and a ring's width stay in range.
proof fn ring_bounds(width: usize, frames: usize)
    requires
        ring_fits(width as nat),
        frames <= RING_FRAMES,
    ensures
        0 <= frames * width <= usize::MAX,
        0 <= FRAMES_PER_PACKET * width <= usize::MAX,
        FRAMES_PER_PACKET * width == 0 <==> width == 0,
{
    assert(0 <= frames * width <= 4096 * width) by (nonlinear_arith)
        requires
            0 <= frames <= 4096,
            0 <= width,
    ;
}

impl Roster {
    /// Flow 1: keeps every peer's source device's ring topped up to the target
    /// depth.
    pub fn feed_sources(&mut self, target_frames: usize)
        requires
            old(self).wf(),
            target_frames <= RING_FRAMES,
        ensures
            final(self).wf(),
            final(self).members@.len() == old(self).members@.len(),
            forall|i: int|
                0 <= i < old(self).members@.len() ==> fed(
                    #[trigger] old(self).members@[i],
                    final(self).members@[i],
                    target_frames as nat,
                ),
    {
        let mut i: usize = 0;
        while i < self.members.len()
            invariant
                i <= self.members@.len(),
                self.wf(),
                target_frames <= RING_FRAMES,
                self.members@.len() == old(self).members@.len(),
                forall|k: int|
                    0 <= k < i ==> fed(
                        #[trigger] old(self).members@[k],
                        self.members@[k],
                        target_frames as nat,
                    ),
                forall|k: int|
                    i <= k < self.members@.len() ==> #[trigger] self.members@[k] == old(
                        self,
                    ).members@[k],
            decreases self.members.len() - i,
        {
            let ghost before = self@;
            let ghost list = self.members@;
            self.members[i].feed_source(target_frames);
            proof {
                assert(self@ =~= before.update(i as int, self.members@[i as int]@));
                changing_keeps_distinct(before, i as int, self.members@[i as int]@);
                assert forall|k: int| 0 <= k < i + 1 implies fed(
                    #[trigger] old(self).members@[k],
                    self.members@[k],
                    target_frames as nat,
                ) by {
                    if k < i {
                        assert(self.members@[k] == list[k]);
                    }
                }
            }
            i = i + 1;
        }
    }
}

/// What each member plays into our inputs.
pub open spec fn return_plays(members: Seq<MemberView>) -> Seq<PlayoutView> {
    members.map_values(|m: MemberView| m.return_play)
}

/// The member after a round.
pub open spec fn after_return(m: MemberView) -> MemberView {
    MemberView { return_play: stepped(m.return_play), ..m }
}

/// Flow 4: what the members play into our inputs, summed, as a source of blocks.
/// `plus` is the addition of two samples.
pub struct ReturnMix<'a, F: Fn(u32, u32) -> u32> {
    pub members: Vec<Member>,
    pub pairs: &'a Vec<(u16, u16)>,
    pub out_channels: usize,
    pub plus: &'a F,
}

impl<'a, F: Fn(u32, u32) -> u32> BlockSource for ReturnMix<'a, F> {
    type Model = Seq<MemberView>;

    open spec fn model(&self) -> Seq<MemberView> {
        member_views(self.members@)
    }

    open spec fn fit(&self) -> bool {
        &&& FRAMES_PER_PACKET * self.out_channels <= usize::MAX
        &&& forall|i: int| 0 <= i < self.members@.len() ==> (#[trigger] self.members@[i]).wf()
        &&& forall|a: u32, b: u32| #[trigger] call_requires(*self.plus, (a, b))
    }

    open spec fn left(&self) -> nat {
        rounds_left(return_plays(self.model()))
    }

    /// A block comes where somebody plays into our inputs, and is the sum of what
    /// they play.
    open spec fn yields(
        &self,
        before: Seq<MemberView>,
        outcome: YieldView,
        after: Seq<MemberView>,
    ) -> bool {
        let oc = self.out_channels as int;
        let plays = return_plays(before);
        match outcome {
            YieldView::Block(b) => {
                &&& any_plays(plays)
                &&& all_mixable(plays, self.pairs@, oc)
                &&& is_mix(*self.plus, plays, self.pairs@, oc, b)
                &&& after == before.map_values(|m: MemberView| after_return(m))
            },
            YieldView::Dry => !any_plays(plays) && after == before,
            YieldView::Broken => !all_mixable(plays, self.pairs@, oc) && after == before,
        }
    }

    fn next(&mut self) -> Yield {
        let ghost start = self.model();
        let ghost plays = return_plays(start);
        let ghost pairs = self.pairs@;
        let ghost oc = self.out_channels as int;
        let mut any = false;
        let mut i: usize = 0;
        while i < self.members.len()
            invariant
                i <= self.members@.len(),
                self.fit(),
                *self == *old(self),
                start == self.model(),
                plays == return_plays(start),
                pairs == self.pairs@,
                oc == self.out_channels,
                any == exists|k: int| 0 <= k < i && (#[trigger] plays[k]).can_play(),
                forall|k: int| 0 <= k < i ==> mixable(#[trigger] plays[k], pairs, oc),
            decreases self.members.len() - i,
        {
            assert(plays[i as int] == self.members@[i as int].return_play.view());
            match takes_part(&self.members[i].return_play, self.pairs, self.out_channels) {
                Some(true) => {
                    any = true;
                },
                Some(false) => {
                    return Yield::Broken;
                },
                None => {},
            }
            i = i + 1;
        }
        if !any {
            return Yield::Dry;
        }
        let mut block: Vec<u32> = vec![0u32; FRAMES_PER_PACKET as usize * self.out_channels];
        proof {
            silence_sums_up(*self.plus, plays, pairs, oc, block@);
        }
        let mut n: usize = 0;
        while n < self.members.len()
            invariant
                n <= self.members@.len(),
                self.fit(),
                self.pairs == old(self).pairs,
                self.out_channels == old(self).out_channels,
                self.plus == old(self).plus,
                start == old(self).model(),
                plays == return_plays(start),
                pairs == self.pairs@,
                oc == self.out_channels,
                self.members@.len() == start.len(),
                all_mixable(plays, pairs, oc),
                forall|k: int|
                    0 <= k < start.len() ==> (#[trigger] self.members@[k])@ == if k < n {
                        after_return(start[k])
                    } else {
                        start[k]
                    },
                forall|k: int|
                    0 <= k < n && (#[trigger] plays[k]).can_play() ==> stepped(plays[k]).reserve()
                        < plays[k].reserve(),
                sums_up(*self.plus, plays, pairs, oc, n as nat, block@),
            decreases self.members.len() - n,
        {
            let ghost before = block@;
            let ghost list = self.members@;
            assert(list[n as int]@ == start[n as int]);
            assert(plays[n as int] == list[n as int].return_play.view());
            assert(mixable(plays[n as int], pairs, oc));
            add_playout(
                &mut self.members[n].return_play,
                &mut block,
                self.pairs,
                self.out_channels,
                self.plus,
            );
            proof {
                sum_grows(*self.plus, plays, pairs, oc, n as nat, before, block@);
                assert forall|k: int| 0 <= k < start.len() implies (
                #[trigger] self.members@[k])@ == if k < n + 1 {
                    after_return(start[k])
                } else {
                    start[k]
                } by {
                    if k != n {
                        assert(self.members@[k] == list[k]);
                    }
                }
            }
            n = n + 1;
        }
        proof {
            let after = self.model();
            assert(after =~= start.map_values(|m: MemberView| after_return(m)));
            let plays_after = return_plays(after);
            assert forall|i: int| 0 <= i < plays.len() implies #[trigger] plays_after[i]
                == stepped(plays[i]) by {
                assert(after[i] == after_return(start[i]));
            }
            assert forall|i: int| 0 <= i < plays.len() implies (#[trigger] plays_after[i]).reserve()
                <= plays[i].reserve() by {
                assert(plays[i].can_play() || !plays[i].can_play());
            }
            let k = choose|k: int| 0 <= k < plays.len() && (#[trigger] plays[k]).can_play();
            assert(plays_after[k].reserve() < plays[k].reserve());
            rounds_shrink(plays, plays_after);
        }
        Yield::Block(block)
    }
}

/// The two lists are of the same addresses, in order.
pub open spec fn same_addresses(a: Seq<MemberView>, b: Seq<MemberView>) -> bool {
    &&& a.len() == b.len()
    &&& forall|i: int| 0 <= i < a.len() ==> (#[trigger] a[i]).ip == b[i].ip
}

proof fn rounds_keep_addresses<'a, F: Fn(u32, u32) -> u32>(
    mix: ReturnMix<'a, F>,
    models: Seq<Seq<MemberView>>,
    blocks: Seq<Seq<u32>>,
    n: int,
)
    requires
        yielded(mix, models, blocks),
        0 <= n < models.len(),
    ensures
        same_addresses(models[0], models[n]),
    decreases n,
{
    if n > 0 {
        rounds_keep_addresses(mix, models, blocks, n - 1);
        assert(mix.yields(models[n - 1], YieldView::Block(blocks[n - 1]), models[n - 1 + 1]));
    }
}

/// However long a refill goes on, the members stay the ones that they were, and
/// the ring stays near its target.
proof fn refill_keeps_addresses<'a, F: Fn(u32, u32) -> u32>(
    ring: SampleProducer,
    ring_after: SampleProducer,
    target_occ: nat,
    block_len: nat,
    mix: ReturnMix<'a, F>,
    after: Seq<MemberView>,
    sound: bool,
)
    requires
        refilled(ring, ring_after, target_occ, block_len, mix, after, sound),
    ensures
        same_addresses(mix.model(), after),
        fill(ring_after) <= fill(ring) || fill(ring_after) < target_occ + FRAMES_PER_PACKET
            * mix.out_channels,
{
    let (models, blocks, rings) = choose|
        models: Seq<Seq<MemberView>>,
        blocks: Seq<Seq<u32>>,
        rings: Seq<SampleProducer>,
    | #[trigger]
        refill_run(
            ring,
            ring_after,
            target_occ,
            block_len,
            mix,
            after,
            sound,
            models,
            blocks,
            rings,
        );
    rounds_keep_addresses(mix, models, blocks, models.len() - 1);
    if blocks.len() > 0 {
        let n = blocks.len() - 1;
        assert(mix.yields(models[n], YieldView::Block(blocks[n]), models[n + 1]));
    }
}

proof fn same_addresses_distinct(a: Seq<MemberView>, b: Seq<MemberView>)
    requires
        distinct(a),
        same_addresses(a, b),
    ensures
        distinct(b),
{
    assert forall|i: int, j: int| 0 <= i < j < b.len() implies (#[trigger] b[i]).ip != (
    #[trigger] b[j]).ip by {
        assert(a[i].ip != a[j].ip);
    }
}

impl Roster {
    /// Flow 4: keeps the physical output's ring topped up to the target depth
    /// with the sum of what the members play into our inputs, paced by the
    /// output's clock. False where a member's block is too short for the routes
    /// that read it.
    pub fn feed_outputs<F: Fn(u32, u32) -> u32>(
        &mut self,
        ring: &mut SampleProducer,
        target_frames: usize,
        pairs: &Vec<(u16, u16)>,
        out_channels: u16,
        plus: &F,
    ) -> (sound: bool)
        requires
            old(self).wf(),
            target_frames <= RING_FRAMES,
            forall|a: u32, b: u32| #[trigger] call_requires(*plus, (a, b)),
        ensures
            final(self).wf(),
            refilled(
                *old(ring),
                *final(ring),
                (target_frames * out_channels) as nat,
                (FRAMES_PER_PACKET * out_channels) as nat,
                (ReturnMix {
                    members: old(self).members,
                    pairs,
                    out_channels: out_channels as usize,
                    plus,
                }),
                final(self)@,
                sound,
            ),
            fill(*final(ring)) <= fill(*old(ring)) || fill(*final(ring)) < (target_frames
                + FRAMES_PER_PACKET) * out_channels,
    {
        let mut members: Vec<Member> = Vec::new();
        std::mem::swap(&mut members, &mut self.members);
        let mut mix = ReturnMix { members, pairs, out_channels: out_channels as usize, plus };
        proof {
            assert(0 <= target_frames * out_channels <= 4096 * 65535) by (nonlinear_arith)
                requires
                    0 <= target_frames <= 4096,
                    0 <= out_channels <= 65535,
            ;
        }
        let ghost source = mix;
        let sound = refill(
            ring,
            target_frames * out_channels as usize,
            FRAMES_PER_PACKET as usize * out_channels as usize,
            &mut mix,
        );
        proof {
            refill_keeps_addresses(
                *old(ring),
                *ring,
                (target_frames * out_channels) as nat,
                (FRAMES_PER_PACKET * out_channels) as nat,
                source,
                mix.model(),
                sound,
            );
            same_addresses_distinct(old(self)@, mix.model());
            assert((target_frames + 64) * out_channels == target_frames * out_channels + 64
                * out_channels) by (nonlinear_arith);
        }
        self.members = mix.members;
        sound
    }
}

/// Exactly the members that were heard in time stay.
pub proof fn expiry_is_exact(members: Seq<MemberView>, now: u128, m: MemberView)
    ensures
        members.filter(|m: MemberView| m.is_live(now)).contains(m) <==> members.contains(m)
            && m.is_live(now),
    decreases members.len(),
{
    reveal(Seq::filter);
    let live = |m: MemberView| m.is_live(now);
    let kept = members.filter(live);
    if members.len() > 0 {
        let front = members.drop_last();
        let f = front.filter(live);
        expiry_is_exact(front, now, m);
        if members.contains(m) && m.is_live(now) {
            let k = choose|k: int| 0 <= k < members.len() && members[k] == m;
            if k < front.len() {
                assert(front[k] == m);
                let i = choose|i: int| 0 <= i < f.len() && f[i] == m;
                assert(kept[i] == m);
            } else {
                assert(kept[f.len() as int] == m);
            }
        }
        if kept.contains(m) {
            let i = choose|i: int| 0 <= i < kept.len() && kept[i] == m;
            if i < f.len() {
                assert(f[i] == m);
                let k = choose|k: int| 0 <= k < front.len() && front[k] == m;
                assert(members[k] == m);
            } else {
                assert(members[members.len() - 1] == m);
            }
        }
    }
}

/// A member that was refreshed stays for the whole timeout from then on.
pub proof fn refreshed_member_stays(members: Seq<MemberView>, i: int, heard: u128, now: u128)
    requires
        0 <= i < members.len(),
        now - heard < MEMBER_TIMEOUT_NS,
    ensures
        ({
            let m = MemberView { last_seen: heard, ..members[i] };
            members.update(i, m).filter(|m: MemberView| m.is_live(now)).contains(m)
        }),
{
    let m = MemberView { last_seen: heard, ..members[i] };
    let after = members.update(i, m);
    assert(after[i] == m);
    expiry_is_exact(after, now, m);
}

/// A member's seat is the last one of its address, if there is any.
pub proof fn seat_is_the_last_of_its_address(members: Seq<MemberView>, ip: Ip)
    ensures
        seat(members, ip) is None <==> forall|k: int|
            0 <= k < members.len() ==> (#[trigger] members[k]).ip != ip,
        seat(members, ip) matches Some(i) ==> {
            &&& 0 <= i < members.len()
            &&& members[i].ip == ip
            &&& forall|k: int| i < k < members.len() ==> (#[trigger] members[k]).ip != ip
        },
    decreases members.len(),
{
    seat_holds(members, ip);
    if members.len() > 0 && members.last().ip != ip {
        let front = members.drop_last();
        seat_is_the_last_of_its_address(front, ip);
        assert(forall|k: int| 0 <= k < front.len() ==> front[k] == members[k]);
        if let Some(i) = seat(members, ip) {
            assert forall|k: int| i < k < members.len() implies (#[trigger] members[k]).ip
                != ip by {
                if k < front.len() {
                    assert(front[k].ip != ip);
                }
            }
        }
    } else if members.len() > 0 {
        assert(members[members.len() - 1].ip == ip);
    }
}

/// A member is known in a run exactly where somebody of its address is in the list
/// with that run's number.
pub proof fn known_run_is_address_and_number(members: Seq<MemberView>, ip: Ip, node_id: u128)
    requires
        distinct(members),
    ensures
        known_run(members, ip, node_id) <==> exists|i: int|
            0 <= i < members.len() && (#[trigger] members[i]).ip == ip && members[i].node_id
                == node_id,
{
    seat_is_the_last_of_its_address(members, ip);
    if exists|i: int|
        0 <= i < members.len() && (#[trigger] members[i]).ip == ip && members[i].node_id
            == node_id {
        let i = choose|i: int|
            0 <= i < members.len() && (#[trigger] members[i]).ip == ip && members[i].node_id
                == node_id;
        let s = seat(members, ip)->0;
        if s != i {
            assert(members[i].ip != members[s].ip);
        }
    }
}

/// Whoever is seated takes the place of the member of its address, where there is
/// one, and the next free place otherwise; everybody else stays where they are.
pub proof fn seating_replaces_the_address(members: Seq<MemberView>, m: MemberView, i: int)
    requires
        distinct(members),
    ensures
        0 <= i < members.len() && members[i].ip == m.ip ==> {
            &&& seated(members, m).len() == members.len()
            &&& seated(members, m)[i] == m
            &&& forall|k: int|
                0 <= k < members.len() && k != i ==> (#[trigger] seated(members, m)[k])
                    == members[k]
        },
        (forall|k: int| 0 <= k < members.len() ==> (#[trigger] members[k]).ip != m.ip) ==> {
            &&& seated(members, m).len() == members.len() + 1
            &&& seated(members, m).last() == m
            &&& seated(members, m).drop_last() == members
        },
{
    seat_is_the_last_of_its_address(members, m.ip);
    if 0 <= i < members.len() && members[i].ip == m.ip {
        let s = seat(members, m.ip)->0;
        if s != i {
            assert(members[i].ip != members[s].ip);
        }
    } else if seat(members, m.ip) is None {
        assert(seated(members, m).drop_last() =~= members);
    }
}

/// A member joins under its address and in its run, with an empty cushion both ways
/// and packets numbered from zero, and with the rings of those of its devices that
/// were built.
pub proof fn member_joins_afresh(
    j: Joining,
    source_built: bool,
    sink_built: bool,
    prime: nat,
    now: u128,
)
    ensures
        ({
            let m = joined_member(j, source_built, sink_built, prime, now);
            &&& m.ip == j.ip
            &&& m.node_id == j.node_id
            &&& m.device_name == j.device_name@
            &&& m.source_width == j.source_width
            &&& m.peer_inputs == j.peer_inputs
            &&& m.feed is Some <==> source_built && j.feed is Some
            &&& m.feed matches Some(ring) ==> ring == j.feed->0
            &&& m.intake is Some <==> sink_built && j.intake is Some
            &&& m.intake matches Some(ring) ==> ring == j.intake->0
            &&& m.in_seq == 0
            &&& m.last_seen == now
            &&& m.out_play == PlayoutView::fresh(prime)
            &&& m.return_play == PlayoutView::fresh(prime)
        }),
{
}

/// A member is there as long as it was heard less than five seconds ago.
pub proof fn five_seconds_of_silence_end_it(m: MemberView, now: u128)
    ensures
        m.is_live(now) <==> now < m.last_seen + 5_000_000_000,
{
}

/// The two ends of a new ring belong together, nothing has gone through it, and it
/// has room for 4096 frames of all channels.
pub proof fn new_ring_is_empty(p: SampleProducer, c: SampleConsumer, channels: nat)
    requires
        is_fresh_ring(p, c, channels),
    ensures
        inflow(p) == outflow(c),
        written(p).len() == 0,
        taken(c).len() == 0,
        room(p) == 4096 * channels,
{
}

/// Flow 1 for one member: its source device's ring has been given what its playout
/// plays, block after block, and the playout has moved on by as many; until there
/// is no room for a packet, the target depth is reached, or there is nothing left
/// to play. Nothing else of the member has changed, and nothing at all where it has
/// no source device.
pub proof fn source_is_fed_in_turn(before: Member, after: Member, target_frames: nat) -> (n: nat)
    requires
        before.wf(),
        blocks_within(before.out_play.view(), 64 * before.source_width as nat),
        fed(before, after, target_frames),
    ensures
        after.feed is Some <==> before.feed is Some,
        before.feed is None ==> after@ == before@,
        after@ == (MemberView { feed: after.feed, out_play: after.out_play.view(), ..before@ }),
        before.feed matches Some(ring) ==> {
            let v = before.out_play.view();
            let ring_after = after.feed->0;
            &&& after.out_play.view() == after_plays(v, n)
            &&& forall|i: nat| i < n ==> #[trigger] after_plays(v, i).can_play()
            &&& written(ring_after) == written(ring) + Seq::new(
                n,
                |i: int| after_plays(v, i as nat).next_block().0,
            ).flatten()
            &&& room(ring_after) < 64 * before.source_width || fill(ring_after) >= target_frames
                * before.source_width || !after.out_play.view().can_play()
        },
{
    match (before.feed, after.feed) {
        (Some(ring), Some(ring_after)) => {
            playout_is_played_in_turn(
                ring,
                ring_after,
                target_frames * before.source_width as nat,
                FRAMES_PER_PACKET as nat * before.source_width as nat,
                before.out_play,
                after.out_play.view(),
                true,
            )
        },
        _ => 0,
    }
}

/// The packet that a member is sent of what was played into its sink: its own
/// number, and the samples as they were taken; where the member has no more than
/// 255 inputs, the peer reads just that.
pub proof fn sink_packet_holds_what_was_played(
    m: MemberView,
    sample_rate: u32,
    block: Seq<u32>,
    d: Datagram,
    in_port: u16,
)
    requires
        block.len() == 64 * m.peer_inputs,
        carries(d, Addr { ip: m.ip, port: in_port }, sink_packet(m, sample_rate, block)),
    ensures
        d.dest.ip == m.ip,
        d.dest.port == in_port,
        sink_packet(m, sample_rate, block).seq == m.in_seq,
        sink_packet(m, sample_rate, block).sample_rate == header_rate(sample_rate),
        sink_packet(m, sample_rate, block).channels == m.peer_inputs % 256,
        sink_packet(m, sample_rate, block).frames == 64,
        sink_packet(m, sample_rate, block).samples == block,
        m.peer_inputs <= 255 ==> reading(d.bytes@) == Some(sink_packet(m, sample_rate, block)),
{
    if m.peer_inputs <= 255 {
        carried_packet_arrives(
            d,
            Addr { ip: m.ip, port: in_port },
            sink_packet(m, sample_rate, block),
        );
    }
}

/// What comes to our outputs in a round of flow 4: at every output of every frame
/// the sum, on top of silence, of what every member that has a block for us has
/// routed there. Whoever had a block has moved on by one, and nothing else of a
/// member has changed.
pub proof fn inputs_hear_everybody<'a, F: Fn(u32, u32) -> u32>(
    mix: ReturnMix<'a, F>,
    sum: spec_fn(u32, u32) -> u32,
    before: Seq<MemberView>,
    block: Seq<u32>,
    after: Seq<MemberView>,
    f: int,
    o: int,
)
    requires
        forall|a: u32, b: u32, s: u32| #[trigger]
            call_ensures(*mix.plus, (a, b), s) ==> s == sum(a, b),
        mix.yields(before, YieldView::Block(block), after),
        0 <= f < 64,
        0 <= o < mix.out_channels,
    ensures
        block.len() == 64 * mix.out_channels,
        block[f * mix.out_channels + o] == Seq::new(
            before.len(),
            |i: int|
                {
                    let play = before[i].return_play;
                    if play.can_play() {
                        mix.pairs@.filter(
                            |p: (u16, u16)| p.1 == o && p.0 < play.next_block().1,
                        ).map_values(
                            |p: (u16, u16)| play.next_block().0[f * play.next_block().1 + p.0],
                        )
                    } else {
                        Seq::<u32>::empty()
                    }
                },
        ).flatten().fold_left(0u32, sum),
        exists|i: int| 0 <= i < before.len() && (#[trigger] before[i]).return_play.can_play(),
        after.len() == before.len(),
        forall|i: int|
            0 <= i < after.len() ==> {
                let m = before[i];
                &&& (#[trigger] after[i]).return_play == if m.return_play.can_play() {
                    m.return_play.played()
                } else {
                    m.return_play
                }
                &&& after[i] == (MemberView { return_play: after[i].return_play, ..m })
            },
{
    let plays = return_plays(before);
    let oc = mix.out_channels as int;
    let pairs = mix.pairs@;
    mix_is_the_sum_of_what_everybody_plays(*mix.plus, sum, plays, pairs, oc, block, f, o);
    let routed = Seq::new(
        plays.len(),
        |i: int|
            if plays[i].can_play() {
                pairs.filter(
                    |p: (u16, u16)| p.1 == o && p.0 < plays[i].next_block().1,
                ).map_values(
                    |p: (u16, u16)| plays[i].next_block().0[f * plays[i].next_block().1 + p.0],
                )
            } else {
                Seq::<u32>::empty()
            },
    );
    let plain = Seq::new(
        before.len(),
        |i: int|
            {
                let play = before[i].return_play;
                if play.can_play() {
                    pairs.filter(
                        |p: (u16, u16)| p.1 == o && p.0 < play.next_block().1,
                    ).map_values(
                        |p: (u16, u16)| play.next_block().0[f * play.next_block().1 + p.0],
                    )
                } else {
                    Seq::<u32>::empty()
                }
            },
    );
    assert forall|i: int| 0 <= i < plays.len() implies #[trigger] routed[i] == plain[i] by {
        let play = before[i].return_play;
        assert(plays[i] == play);
        let leads = |p: (u16, u16)| p.1 == o && p.0 < plays[i].next_block().1;
        let leads_here = |p: (u16, u16)| p.1 == o && p.0 < play.next_block().1;
        assert(leads =~= leads_here);
        let read = |p: (u16, u16)| plays[i].next_block().0[f * plays[i].next_block().1 + p.0];
        let read_here = |p: (u16, u16)| play.next_block().0[f * play.next_block().1 + p.0];
        assert(read =~= read_here);
    }
    assert(routed =~= plain);
    let k = choose|k: int| 0 <= k < plays.len() && (#[trigger] plays[k]).can_play();
    assert(before[k].return_play.can_play());
}

/// Nothing comes where nobody plays into our inputs, or a member's block is too
/// short for the routes; and then nothing changes.
pub proof fn silent_round_leaves_members<'a, F: Fn(u32, u32) -> u32>(
    mix: ReturnMix<'a, F>,
    before: Seq<MemberView>,
    after: Seq<MemberView>,
)
    ensures
        mix.yields(before, YieldView::Dry, after) ==> after == before && forall|i: int|
            0 <= i < before.len() ==> !(#[trigger] before[i]).return_play.can_play(),
        mix.yields(before, YieldView::Broken, after) ==> after == before && exists|i: int|
            0 <= i < before.len() && !mixable(
                (#[trigger] before[i]).return_play,
                mix.pairs@,
                mix.out_channels as int,
            ),
{
    if mix.yields(before, YieldView::Dry, after) {
        assert forall|i: int| 0 <= i < before.len() implies !(
        #[trigger] before[i]).return_play.can_play() by {
            assert(!return_plays(before)[i].can_play());
        }
    }
    if mix.yields(before, YieldView::Broken, after) {
        let plays = return_plays(before);
        let i = choose|i: int|
            0 <= i < plays.len() && !mixable(
                #[trigger] plays[i],
                mix.pairs@,
                mix.out_channels as int,
            );
        assert(plays[i] == before[i].return_play);
    }
}

} // verus!
