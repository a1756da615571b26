//! The other members of a group, each with channel lanes on one shared loopback
//! device: what a Mac has in place of virtual devices.

use vstd::prelude::*;
use crate::blackhole::{
    extract_inverts_place, extract_lane, extracted, extracted_block_is_the_lane,
    fitting_lane_is_inside, lane_fits, lane_inside, lane_len, place_lane, placed,
    placed_block_stands_in_its_lane, placed_len, placing_leaves_other_lanes, ChannelMap,
    ChannelMapView, HubLayout, LaneError,
};
use crate::config::{Addr, Ip};
use crate::jitter::{
    playing_uses_up_the_reserve, silence, successor, Ingest, Playout, PlayoutView,
};
use crate::layout::cell_position;
use crate::mix::{
    add_playout, all_mixable, any_plays, is_mix, mix_is_the_sum_of_what_everybody_plays, mixable,
    rounds_left, rounds_shrink, silence_sums_up, stepped, sum_grows, sums_up, takes_part,
};
use crate::osc_msg::{Advertisement, AdvertisementView};
use crate::packet::{reading, AudioPacket, PacketView};
use crate::remote::{concerns_us, is_for_us, MEMBER_TIMEOUT_NS};
use crate::ring::{
    fill, refill, refill_run, refilled, yielded, BlockSource, SampleProducer, Yield, YieldView,
    RING_FRAMES,
};
use crate::stream::{copied, pair_channels, straight_through, FRAMES_PER_PACKET};
use crate::transport::{carried_packet_arrives, carries, Datagram};

verus! {

/// A remote member, represented by channel lanes on the shared device.
pub struct LaneMember {
    pub ip: Ip,
    pub node_id: u128,
    pub device_name: String,
    /// Flow 1: the peer's outputs, written to the `out_lane` channels (which the
    /// user records).
    pub out_play: Playout,
    pub out_lane: usize,
    pub out_width: usize,
    /// Flow 4: what the peer plays into our inputs, summed (with other peers)
    /// onto our own inputs' lane.
    pub return_play: Playout,
    /// Flow 3: what the user plays into this peer is read from `in_lane`.
    pub in_lane: usize,
    pub in_width: usize,
    /// The sequence number of the next packet that we send the peer.
    pub in_seq: u32,
    /// When the peer was heard last, in nanoseconds of a steady clock.
    pub last_seen: u128,
}

/// What a [`LaneMember`] holds.
pub struct LaneMemberView {
    pub ip: Ip,
    pub node_id: u128,
    pub device_name: Seq<char>,
    pub out_play: PlayoutView,
    pub out_lane: nat,
    pub out_width: nat,
    pub return_play: PlayoutView,
    pub in_lane: nat,
    pub in_width: nat,
    pub in_seq: u32,
    pub last_seen: u128,
}

impl View for LaneMember {
    type V = LaneMemberView;

    open spec fn view(&self) -> LaneMemberView {
        LaneMemberView {
            ip: self.ip,
            node_id: self.node_id,
            device_name: self.device_name@,
            out_play: self.out_play.view(),
            out_lane: self.out_lane as nat,
            out_width: self.out_width as nat,
            return_play: self.return_play.view(),
            in_lane: self.in_lane as nat,
            in_width: self.in_width as nat,
            in_seq: self.in_seq,
            last_seen: self.last_seen,
        }
    }
}

impl LaneMember {
    /// Both playouts are in order.
    pub open spec fn wf(&self) -> bool {
        self.out_play.wf() && self.return_play.wf()
    }
}

impl LaneMemberView {
    /// The member was heard less than the timeout ago.
    pub open spec fn is_live(self, now: u128) -> bool {
        now - self.last_seen < MEMBER_TIMEOUT_NS
    }

    /// The member has the place of `other`: the same address and lanes.
    pub open spec fn keeps_place(self, other: LaneMemberView) -> bool {
        &&& self.ip == other.ip
        &&& self.out_lane == other.out_lane
        &&& self.out_width == other.out_width
        &&& self.in_lane == other.in_lane
        &&& self.in_width == other.in_width
    }

    /// The member in its next run, on the lanes that it has.
    pub open spec fn restarted(self, ad: AdvertisementView, prime: nat, now: u128) -> LaneMemberView {
        LaneMemberView {
            node_id: ad.node_id,
            device_name: ad.device_name,
            out_play: PlayoutView::fresh(prime),
            return_play: PlayoutView::fresh(prime),
            in_seq: 0,
            last_seen: now,
            ..self
        }
    }
}

/// The views of a list of members.
pub open spec fn lane_views(members: Seq<LaneMember>) -> Seq<LaneMemberView> {
    members.map_values(|m: LaneMember| m@)
}

/// Where the member of this address stands in the list, if it is there.
pub open spec fn lane_seat(members: Seq<LaneMemberView>, ip: Ip) -> Option<int>
    decreases members.len(),
{
    if members.len() == 0 {
        None
    } else if members.last().ip == ip {
        Some(members.len() - 1)
    } else {
        lane_seat(members.drop_last(), ip)
    }
}

proof fn lane_seat_holds(members: Seq<LaneMemberView>, ip: Ip)
    ensures
        match lane_seat(members, ip) {
            Some(i) => 0 <= i < members.len() && members[i].ip == ip,
            None => forall|k: int| 0 <= k < members.len() ==> (#[trigger] members[k]).ip != ip,
        },
    decreases members.len(),
{
    if members.len() > 0 {
        lane_seat_holds(members.drop_last(), ip);
        assert forall|k: int|
            0 <= k < members.len() && lane_seat(members, ip) is None implies (
        #[trigger] members[k]).ip != ip by {
            if k < members.len() - 1 {
                assert(members.drop_last()[k] == members[k]);
            }
        }
    }
}

/// Two lanes share no channel.
pub open spec fn apart(offset: nat, width: nat, other_offset: nat, other_width: nat) -> bool {
    ||| width == 0
    ||| other_width == 0
    ||| offset + width <= other_offset
    ||| other_offset + other_width <= offset
}

/// What a [`HubState`] holds.
pub struct HubView {
    pub chans: ChannelMapView,
    /// How many outputs and inputs we expose.
    pub n_out: nat,
    pub n_in: nat,
    /// The sequence number of the next packet of our outputs.
    pub out_seq: u32,
    pub members: Seq<LaneMemberView>,
}

impl HubView {
    /// The lane that we read our own outputs from.
    pub open spec fn my_out(self) -> Option<nat> {
        if self.n_out > 0 {
            Some(self.chans.split)
        } else {
            None
        }
    }

    /// The lane that we write our own inputs to.
    pub open spec fn my_in(self) -> Option<nat> {
        if self.n_in > 0 {
            Some(0)
        } else {
            None
        }
    }

    /// The lanes of a member stand in their regions, behind our own and in front
    /// of those that are still free.
    pub open spec fn lanes_inside(self, m: LaneMemberView) -> bool {
        &&& lane_fits(self.chans.channels as int, m.out_lane as int, m.out_width as int)
        &&& lane_fits(self.chans.channels as int, m.in_lane as int, m.in_width as int)
        &&& m.out_width > 0 ==> self.n_in <= m.out_lane && m.out_lane + m.out_width
            <= self.chans.write_next
        &&& m.in_width > 0 ==> self.chans.split + self.n_out <= m.in_lane && m.in_lane + m.in_width
            <= self.chans.read_next
    }

    /// No address stands twice, every lane is in its place, and no two members
    /// share a channel.
    pub open spec fn valid(self) -> bool {
        &&& self.chans.valid()
        &&& 2 <= self.chans.channels <= u16::MAX
        &&& self.chans.split <= self.chans.channels
        &&& self.n_in <= self.chans.write_next
        &&& self.chans.split + self.n_out <= self.chans.read_next
        &&& forall|i: int|
            0 <= i < self.members.len() ==> self.lanes_inside(#[trigger] self.members[i])
        &&& forall|i: int, j: int|
            0 <= i < j < self.members.len() ==> separate(
                #[trigger] self.members[i],
                #[trigger] self.members[j],
            )
    }
}

/// Two members have different addresses and share no channel.
pub open spec fn separate(a: LaneMemberView, b: LaneMemberView) -> bool {
    &&& a.ip != b.ip
    &&& apart(a.out_lane, a.out_width, b.out_lane, b.out_width)
    &&& apart(a.in_lane, a.in_width, b.in_lane, b.in_width)
}

/// A group on a shared device.
pub struct HubState {
    pub chans: ChannelMap,
    pub channels: usize,
    pub n_out: usize,
    pub n_in: usize,
    pub my_out: Option<usize>,
    pub my_in: Option<usize>,
    /// Our inputs, straight through.
    pub pairs: Vec<(u16, u16)>,
    pub out_seq: u32,
    pub members: Vec<LaneMember>,
}

/// What an advertisement leads to.
pub enum LaneVerdict {
    /// It is not for us, or the peer shares nothing.
    Ignored,
    /// A known member is still there.
    Refreshed,
    /// A known member starts over, on the lanes that it has.
    Restarted,
    /// A new member, on new lanes.
    Joined,
    /// There are no channels left for the peer's outputs.
    NoRecordLane(LaneError),
    /// There are no channels left for the peer's inputs.
    NoPlaybackLane(LaneError),
}

impl View for HubState {
    type V = HubView;

    open spec fn view(&self) -> HubView {
        HubView {
            chans: self.chans@,
            n_out: self.n_out as nat,
            n_in: self.n_in as nat,
            out_seq: self.out_seq,
            members: lane_views(self.members@),
        }
    }
}

impl HubView {
    /// What holds once an advertisement has been heard, and what it led to.
    pub open spec fn heard(
        self,
        ad: AdvertisementView,
        src_ip: Ip,
        ours: bool,
        prime: nat,
        now: u128,
    ) -> (HubView, LaneVerdict) {
        let n_out = ad.outputs.len();
        let n_in = ad.inputs.len();
        let chans = self.chans;
        if !ours {
            (self, LaneVerdict::Ignored)
        } else {
            match lane_seat(self.members, src_ip) {
                Some(i) => {
                    let m = self.members[i];
                    if m.node_id == ad.node_id {
                        (
                            HubView {
                                members: self.members.update(
                                    i,
                                    LaneMemberView { last_seen: now, ..m },
                                ),
                                ..self
                            },
                            LaneVerdict::Refreshed,
                        )
                    } else {
                        (
                            HubView {
                                members: self.members.update(i, m.restarted(ad, prime, now)),
                                ..self
                            },
                            LaneVerdict::Restarted,
                        )
                    }
                },
                None => if n_out == 0 && n_in == 0 {
                    (self, LaneVerdict::Ignored)
                } else if n_out > 0 && !chans.can_write(n_out) {
                    (
                        self,
                        LaneVerdict::NoRecordLane(
                            LaneError::Record {
                                need: n_out as usize,
                                past: chans.write_next as usize,
                                split: chans.split as usize,
                            },
                        ),
                    )
                } else if n_in > 0 && !chans.can_read(n_in) {
                    (
                        HubView { chans: chans.with_write(n_out), ..self },
                        LaneVerdict::NoPlaybackLane(
                            LaneError::Playback {
                                need: n_in as usize,
                                past: chans.read_next as usize,
                                split: chans.split as usize,
                                channels: chans.channels as usize,
                            },
                        ),
                    )
                } else {
                    (
                        HubView {
                            chans: chans.with_write(n_out).with_read(n_in),
                            members: self.members.push(
                                LaneMemberView {
                                    ip: src_ip,
                                    node_id: ad.node_id,
                                    device_name: ad.device_name,
                                    out_play: PlayoutView::fresh(prime),
                                    out_lane: if n_out > 0 {
                                        chans.write_next
                                    } else {
                                        0
                                    },
                                    out_width: n_out,
                                    return_play: PlayoutView::fresh(prime),
                                    in_lane: if n_in > 0 {
                                        chans.read_next
                                    } else {
                                        0
                                    },
                                    in_width: n_in,
                                    in_seq: 0,
                                    last_seen: now,
                                },
                            ),
                            ..self
                        },
                        LaneVerdict::Joined,
                    )
                },
            }
        }
    }
}

/// A change of a member that keeps its place keeps the group in order.
proof fn changing_keeps_valid(v: HubView, i: int, m: LaneMemberView)
    requires
        v.valid(),
        0 <= i < v.members.len(),
        m.keeps_place(v.members[i]),
    ensures
        (HubView { members: v.members.update(i, m), ..v }).valid(),
{
    let w = HubView { members: v.members.update(i, m), ..v };
    assert forall|k: int| 0 <= k < w.members.len() implies w.lanes_inside(
        #[trigger] w.members[k],
    ) by {
        assert(v.lanes_inside(v.members[k]));
    }
    assert forall|a: int, b: int| 0 <= a < b < w.members.len() implies separate(
        #[trigger] w.members[a],
        #[trigger] w.members[b],
    ) by {
        assert(separate(v.members[a], v.members[b]));
    }
}

/// Whatever is heard, no two members ever share a channel, and no member shares
/// one with us.
pub proof fn hearing_keeps_valid(
    v: HubView,
    ad: AdvertisementView,
    src_ip: Ip,
    ours: bool,
    prime: nat,
    now: u128,
)
    requires
        v.valid(),
    ensures
        v.heard(ad, src_ip, ours, prime, now).0.valid(),
{
    lane_seat_holds(v.members, src_ip);
    let (w, verdict) = v.heard(ad, src_ip, ours, prime, now);
    match lane_seat(v.members, src_ip) {
        Some(i) => {
            let m = v.members[i];
            changing_keeps_valid(v, i, LaneMemberView { last_seen: now, ..m });
            changing_keeps_valid(v, i, m.restarted(ad, prime, now));
        },
        None => {
            assert forall|k: int| 0 <= k < w.members.len() implies w.lanes_inside(
                #[trigger] w.members[k],
            ) by {
                if k < v.members.len() {
                    assert(v.lanes_inside(v.members[k]));
                }
            }
            assert forall|a: int, b: int| 0 <= a < b < w.members.len() implies separate(
                #[trigger] w.members[a],
                #[trigger] w.members[b],
            ) by {
                assert(v.lanes_inside(v.members[a]));
                if b < v.members.len() {
                    assert(separate(v.members[a], v.members[b]));
                }
            }
        },
    }
}

impl HubState {
    /// The state agrees with the channel map, and every member is in order.
    pub open spec fn wf(&self) -> bool {
        &&& self@.valid()
        &&& self.channels == self.chans@.channels
        &&& self.my_out is Some <==> self@.my_out() is Some
        &&& self.my_out matches Some(off) ==> off == self@.my_out()->0
        &&& self.my_in is Some <==> self@.my_in() is Some
        &&& self.my_in matches Some(off) ==> off == self@.my_in()->0
        &&& self.pairs@ == straight_through(self.n_in as u16)
        &&& forall|i: int| 0 <= i < self.members@.len() ==> (#[trigger] self.members@[i]).wf()
    }

    /// Lays out our own channels: our outputs are played into the lowest
    /// playback channels, and our inputs are recorded from the lowest record
    /// channels.
    pub fn new(layout: HubLayout, n_out: usize, n_in: usize) -> (r: Result<HubState, LaneError>)
        requires
            2 <= layout.channels <= u16::MAX,
            layout.split <= layout.channels,
        ensures
            r is Ok <==> layout.split + n_out <= layout.channels && n_in <= layout.split,
            match r {
                Ok(h) => {
                    &&& h.wf()
                    &&& h@ == (HubView {
                        chans: ChannelMapView {
                            channels: layout.channels as nat,
                            split: layout.split as nat,
                            write_next: n_in as nat,
                            read_next: (layout.split + n_out) as nat,
                        },
                        n_out: n_out as nat,
                        n_in: n_in as nat,
                        out_seq: 0,
                        members: Seq::empty(),
                    })
                },
                Err(e) => e == if layout.split + n_out > layout.channels {
                    LaneError::Playback {
                        need: n_out,
                        past: layout.split,
                        split: layout.split,
                        channels: layout.channels,
                    }
                } else {
                    LaneError::Record { need: n_in, past: 0, split: layout.split }
                },
            },
    {
        let mut chans = ChannelMap::new(layout.channels, layout.split);
        let mut my_out: Option<usize> = None;
        if n_out > 0 {
            match chans.alloc_read(n_out) {
                Ok(off) => {
                    my_out = Some(off);
                },
                Err(e) => {
                    return Err(e);
                },
            }
        }
        let mut my_in: Option<usize> = None;
        if n_in > 0 {
            match chans.alloc_write(n_in) {
                Ok(off) => {
                    my_in = Some(off);
                },
                Err(e) => {
                    return Err(e);
                },
            }
        }
        let h = HubState {
            chans,
            channels: layout.channels,
            n_out,
            n_in,
            my_out,
            my_in,
            pairs: pair_channels(n_in as u16),
            out_seq: 0,
            members: Vec::new(),
        };
        assert(h@.members =~= Seq::empty());
        Ok(h)
    }

    fn find(&self, ip: Ip) -> (r: Option<usize>)
        ensures
            match r {
                Some(i) => lane_seat(self@.members, ip) == Some(i as int) && i
                    < self.members@.len(),
                None => lane_seat(self@.members, ip) is None,
            },
    {
        let ghost all = self@.members;
        let mut n: usize = self.members.len();
        assert(all.take(n as int) =~= all);
        while n > 0
            invariant
                n <= self.members@.len(),
                all == self@.members,
                lane_seat(all.take(n as int), ip) == lane_seat(all, ip),
            decreases n,
        {
            assert(all.take(n as int).last() == self.members@[n - 1]@);
            assert(all.take(n as int).drop_last() =~= all.take(n - 1));
            if self.members[n - 1].ip == ip {
                return Some(n - 1);
            }
            n = n - 1;
        }
        None
    }

    /// Applies an incoming advertisement: assigns channel lanes to a new member.
    /// On restart (same address, new `node_id`) the member keeps its lanes, to
    /// avoid leaking channels: this assumes the peer's port *counts* are stable
    /// across a restart (changing them needs both ends to restart).
    pub fn handle_advertisement(
        &mut self,
        ad: Advertisement,
        src_ip: Ip,
        group_name: &str,
        my_node_id: u128,
        group: &Vec<Ip>,
        prime: usize,
        now: u128,
    ) -> (v: LaneVerdict)
        requires
            old(self).wf(),
        ensures
            final(self).wf(),
            (final(self)@, v) == old(self)@.heard(
                ad@,
                src_ip,
                concerns_us(ad@, src_ip, group_name@, my_node_id, group@),
                prime as nat,
                now,
            ),
    {
        proof {
            hearing_keeps_valid(
                self@,
                ad@,
                src_ip,
                concerns_us(ad@, src_ip, group_name@, my_node_id, group@),
                prime as nat,
                now,
            );
        }
        if !is_for_us(&ad, src_ip, group_name, my_node_id, group) {
            return LaneVerdict::Ignored;
        }
        let ghost said = ad@;
        if let Some(i) = self.find(src_ip) {
            let ghost m = self@.members[i as int];
            assert(m == self.members@[i as int]@);
            if self.members[i].node_id == ad.node_id {
                self.members[i].last_seen = now;
                assert(self@.members =~= old(self)@.members.update(
                    i as int,
                    (LaneMemberView { last_seen: now, ..m }),
                ));
                return LaneVerdict::Refreshed;
            }
            // Restart: reuse the existing lanes, reset stream state.
            let next = LaneMember {
                ip: src_ip,
                node_id: ad.node_id,
                device_name: ad.device_name,
                out_play: Playout::new(prime),
                out_lane: self.members[i].out_lane,
                out_width: self.members[i].out_width,
                return_play: Playout::new(prime),
                in_lane: self.members[i].in_lane,
                in_width: self.members[i].in_width,
                in_seq: 0,
                last_seen: now,
            };
            proof {
                lane_seat_holds(self@.members, src_ip);
                assert(next@ == m.restarted(said, prime as nat, now));
            }
            self.members.set(i, next);
            assert(self@.members =~= old(self)@.members.update(
                i as int,
                m.restarted(said, prime as nat, now),
            ));
            return LaneVerdict::Restarted;
        }
        let n_out: usize = ad.outputs.len();
        let n_in: usize = ad.inputs.len();
        if n_out == 0 && n_in == 0 {
            return LaneVerdict::Ignored;
        }
        let mut out_lane: usize = 0;
        if n_out > 0 {
            match self.chans.alloc_write(n_out) {
                Ok(off) => {
                    out_lane = off;
                },
                Err(e) => {
                    return LaneVerdict::NoRecordLane(e);
                },
            }
        }
        assert(self.chans@ == old(self).chans@.with_write(n_out as nat));
        let mut in_lane: usize = 0;
        if n_in > 0 {
            match self.chans.alloc_read(n_in) {
                Ok(off) => {
                    in_lane = off;
                },
                Err(e) => {
                    return LaneVerdict::NoPlaybackLane(e);
                },
            }
        }
        let member = LaneMember {
            ip: src_ip,
            node_id: ad.node_id,
            device_name: ad.device_name,
            out_play: Playout::new(prime),
            out_lane,
            out_width: n_out,
            return_play: Playout::new(prime),
            in_lane,
            in_width: n_in,
            in_seq: 0,
            last_seen: now,
        };
        self.members.push(member);
        assert(self@.members =~= old(self)@.members.push(member@));
        LaneVerdict::Joined
    }

    /// Flow 1: takes in a datagram with a peer's outputs. `None` where it is not
    /// from a member, or no packet.
    pub fn on_outputs(&mut self, buf: &[u8], from: Ip) -> (r: Option<Ingest>)
        requires
            old(self).wf(),
        ensures
            final(self).wf(),
            match (lane_seat(old(self)@.members, from), reading(buf@)) {
                (Some(i), Some(p)) => {
                    let m = old(self)@.members[i];
                    &&& r is Some
                    &&& r->0.resynced == m.out_play.jitter.is_desync(p.seq)
                    &&& r->0.newly_primed == (!m.out_play.jitter.primed && m.out_play.inserted(
                        p,
                    ).jitter.primed)
                    &&& final(self)@ == old(self)@.with_member(
                        i,
                        (LaneMemberView { out_play: m.out_play.inserted(p), ..m }),
                    )
                },
                _ => r is None && final(self)@ == old(self)@,
            },
    {
        let i: usize = match self.find(from) {
            Some(i) => i,
            None => {
                return None;
            },
        };
        match AudioPacket::decode(buf) {
            Some(packet) => {
                let ghost m = self@.members[i as int];
                let ghost p = packet@;
                let out = self.members[i].out_play.insert(packet);
                proof {
                    let n = LaneMemberView { out_play: m.out_play.inserted(p), ..m };
                    assert(self@.members =~= old(self)@.members.update(i as int, n));
                    changing_keeps_valid(old(self)@, i as int, n);
                }
                Some(out)
            },
            None => None,
        }
    }

    /// Flow 4: takes in a datagram that a peer played into our inputs. `None`
    /// where we have none, and where it is not from a member, or no packet.
    pub fn on_returns(&mut self, buf: &[u8], from: Ip) -> (r: Option<Ingest>)
        requires
            old(self).wf(),
        ensures
            final(self).wf(),
            match (lane_seat(old(self)@.members, from), reading(buf@)) {
                (Some(i), Some(p)) if old(self)@.n_in > 0 => {
                    let m = old(self)@.members[i];
                    &&& r is Some
                    &&& r->0.resynced == m.return_play.jitter.is_desync(p.seq)
                    &&& r->0.newly_primed == (!m.return_play.jitter.primed
                        && m.return_play.inserted(p).jitter.primed)
                    &&& final(self)@ == old(self)@.with_member(
                        i,
                        (LaneMemberView { return_play: m.return_play.inserted(p), ..m }),
                    )
                },
                _ => r is None && final(self)@ == old(self)@,
            },
    {
        if self.my_in.is_none() {
            return None;
        }
        let i: usize = match self.find(from) {
            Some(i) => i,
            None => {
                return None;
            },
        };
        match AudioPacket::decode(buf) {
            Some(packet) => {
                let ghost m = self@.members[i as int];
                let ghost p = packet@;
                let out = self.members[i].return_play.insert(packet);
                proof {
                    let n = LaneMemberView { return_play: m.return_play.inserted(p), ..m };
                    assert(self@.members =~= old(self)@.members.update(i as int, n));
                    changing_keeps_valid(old(self)@, i as int, n);
                }
                Some(out)
            },
            None => None,
        }
    }

    /// Forgets members that stopped advertising, and hands out the address and
    /// device name of each.
    pub fn expire(&mut self, now: u128) -> (gone: Vec<(Ip, String)>)
        requires
            old(self).wf(),
        ensures
            final(self).wf(),
            final(self)@ == (HubView {
                members: old(self)@.members.filter(|m: LaneMemberView| m.is_live(now)),
                ..old(self)@
            }),
            gone@.map_values(|g: (Ip, String)| (g.0, g.1@)) == old(self)@.members.filter(
                |m: LaneMemberView| !m.is_live(now),
            ).map_values(|m: LaneMemberView| (m.ip, m.device_name)),
    {
        let ghost all = self@.members;
        let ghost live = |m: LaneMemberView| m.is_live(now);
        let ghost dead = |m: LaneMemberView| !m.is_live(now);
        let ghost farewell = |m: LaneMemberView| (m.ip, m.device_name);
        let ghost reading_of = |g: (Ip, String)| (g.0, g.1@);
        let mut members: Vec<LaneMember> = Vec::new();
        std::mem::swap(&mut members, &mut self.members);
        let ghost list = members@;
        let mut kept: Vec<LaneMember> = Vec::new();
        let mut gone: Vec<(Ip, String)> = Vec::new();
        proof {
            reveal(Seq::filter);
            assert(all.take(0) =~= Seq::empty());
            assert(all.take(0).filter(live) =~= Seq::empty());
            assert(all.take(0).filter(dead) =~= Seq::empty());
        }
        for m in it: members
            invariant
                it.seq() == list,
                all == lane_views(list),
                live == (|m: LaneMemberView| m.is_live(now)),
                dead == (|m: LaneMemberView| !m.is_live(now)),
                farewell == (|m: LaneMemberView| (m.ip, m.device_name)),
                reading_of == (|g: (Ip, String)| (g.0, g.1@)),
                forall|i: int| 0 <= i < list.len() ==> (#[trigger] list[i]).wf(),
                forall|i: int| 0 <= i < kept@.len() ==> (#[trigger] kept@[i]).wf(),
                lane_views(kept@) =~= all.take(it.index()).filter(live),
                gone@.map_values(reading_of) =~= all.take(it.index()).filter(dead).map_values(
                    farewell,
                ),
        {
            let ghost prev_kept = kept@;
            let ghost prev_gone = gone@;
            let ghost k = it.index();
            proof {
                reveal(Seq::filter);
                assert(all.take(k + 1).drop_last() =~= all.take(k));
                assert(all.take(k + 1).last() == m@);
            }
            let elapsed: u128 = now.saturating_sub(m.last_seen);
            if elapsed < MEMBER_TIMEOUT_NS {
                kept.push(m);
                assert(lane_views(kept@) =~= lane_views(prev_kept).push(m@));
            } else {
                gone.push((m.ip, m.device_name));
                proof {
                    assert(gone@.map_values(reading_of) =~= prev_gone.map_values(reading_of).push(
                        farewell(m@),
                    ));
                    let before = all.take(k).filter(dead);
                    assert(before.push(m@).map_values(farewell) =~= before.map_values(
                        farewell,
                    ).push(farewell(m@)));
                }
            }
        }
        assert(all.take(all.len() as int) =~= all);
        self.members = kept;
        proof {
            filtering_keeps_valid(old(self)@, all, live);
        }
        gone
    }
}

impl HubView {
    /// The state with `m` as member number `i`.
    pub open spec fn with_member(self, i: int, m: LaneMemberView) -> HubView {
        HubView { members: self.members.update(i, m), ..self }
    }
}

/// Leaving members out keeps the rest in order.
proof fn filtering_keeps_valid(
    v: HubView,
    members: Seq<LaneMemberView>,
    keep: spec_fn(LaneMemberView) -> bool,
)
    requires
        (HubView { members, ..v }).valid(),
    ensures
        (HubView { members: members.filter(keep), ..v }).valid(),
        forall|i: int|
            0 <= i < members.filter(keep).len() ==> members.contains(
                #[trigger] members.filter(keep)[i],
            ),
    decreases members.len(),
{
    reveal(Seq::filter);
    if members.len() > 0 {
        let front = members.drop_last();
        let vf = HubView { members: front, ..v };
        let vm = HubView { members, ..v };
        assert forall|i: int| 0 <= i < front.len() implies vf.lanes_inside(
            #[trigger] vf.members[i],
        ) by {
            assert(vm.lanes_inside(vm.members[i]));
        }
        assert forall|a: int, b: int| 0 <= a < b < front.len() implies separate(
            #[trigger] vf.members[a],
            #[trigger] vf.members[b],
        ) by {
            assert(separate(vm.members[a], vm.members[b]));
        }
        filtering_keeps_valid(v, front, keep);
        let f = front.filter(keep);
        let after = members.filter(keep);
        let va = HubView { members: after, ..v };
        let ve = HubView { members: f, ..v };
        assert forall|i: int| 0 <= i < after.len() implies members.contains(
            #[trigger] after[i],
        ) by {
            if i < f.len() {
                assert(front.contains(f[i]));
                let k = choose|k: int| 0 <= k < front.len() && front[k] == f[i];
                assert(members[k] == after[i]);
            } else {
                assert(members[members.len() - 1] == after[i]);
            }
        }
        assert forall|i: int| 0 <= i < after.len() implies va.lanes_inside(
            #[trigger] va.members[i],
        ) by {
            assert(members.contains(after[i]));
            let k = choose|k: int| 0 <= k < members.len() && members[k] == after[i];
            assert(vm.lanes_inside(vm.members[k]));
        }
        assert forall|a: int, b: int| 0 <= a < b < after.len() implies separate(
            #[trigger] va.members[a],
            #[trigger] va.members[b],
        ) by {
            assert(front.contains(f[a]));
            let k = choose|k: int| 0 <= k < front.len() && front[k] == f[a];
            if b < f.len() {
                assert(separate(ve.members[a], ve.members[b]));
            } else {
                assert(separate(vm.members[k], vm.members[members.len() - 1]));
            }
        }
    }
}

/// What each member plays out.
pub open spec fn out_plays(members: Seq<LaneMemberView>) -> Seq<PlayoutView> {
    members.map_values(|m: LaneMemberView| m.out_play)
}

/// What each member plays into our inputs.
pub open spec fn return_plays(members: Seq<LaneMemberView>) -> Seq<PlayoutView> {
    members.map_values(|m: LaneMemberView| m.return_play)
}

/// A frame with what a playout plays next placed in a lane.
pub open spec fn place_play(
    frame: Seq<u32>,
    channels: int,
    play: PlayoutView,
    offset: int,
    width: int,
) -> Seq<u32> {
    if play.can_play() {
        let block = play.next_block().0;
        placed(
            frame,
            channels,
            offset,
            width,
            block,
            lane_len(frame.len(), channels, width, block.len()),
        )
    } else {
        frame
    }
}

/// A frame of silence with what the first `n` members play out placed in their
/// lanes.
pub open spec fn member_frame(members: Seq<LaneMemberView>, channels: int, n: nat) -> Seq<u32>
    decreases n,
{
    if n == 0 {
        silence((FRAMES_PER_PACKET * channels) as nat)
    } else {
        let m = members[n - 1];
        place_play(
            member_frame(members, channels, (n - 1) as nat),
            channels,
            m.out_play,
            m.out_lane as int,
            m.out_width as int,
        )
    }
}

/// The member after a round, in which returns play only where we have inputs.
pub open spec fn after_round(m: LaneMemberView, inputs: bool) -> LaneMemberView {
    LaneMemberView {
        out_play: stepped(m.out_play),
        return_play: if inputs {
            stepped(m.return_play)
        } else {
            m.return_play
        },
        ..m
    }
}

/// A block of whole frames has so many of them.
proof fn whole_frames(channels: int)
    requires
        0 < channels,
    ensures
        (FRAMES_PER_PACKET * channels) / channels == FRAMES_PER_PACKET,
{
    vstd::arithmetic::div_mod::lemma_fundamental_div_mod_converse(
        FRAMES_PER_PACKET * channels,
        channels,
        FRAMES_PER_PACKET as int,
        0,
    );
}

/// Placing a block in a lane that fits keeps the frame's length.
proof fn place_play_len(
    frame: Seq<u32>,
    channels: int,
    play: PlayoutView,
    offset: int,
    width: int,
)
    requires
        lane_fits(channels, offset, width),
    ensures
        place_play(frame, channels, play, offset, width).len() == frame.len(),
{
    if play.can_play() {
        let block = play.next_block().0;
        placed_len(
            frame,
            channels,
            offset,
            width,
            block,
            lane_len(frame.len(), channels, width, block.len()),
        );
    }
}

/// Plays one playout's next block, if it has one, into its lane of a frame. True
/// where it had one.
fn place_playout(
    play: &mut Playout,
    frame: &mut Vec<u32>,
    channels: usize,
    offset: usize,
    width: usize,
) -> (played: bool)
    requires
        old(play).wf(),
        channels <= u16::MAX,
        lane_fits(channels as int, offset as int, width as int),
        old(frame)@.len() == FRAMES_PER_PACKET * channels,
    ensures
        final(play).wf(),
        final(play).view() == stepped(old(play).view()),
        played == old(play).view().can_play(),
        played ==> final(play).view().reserve() < old(play).view().reserve(),
        final(frame)@.len() == old(frame)@.len(),
        final(frame)@ == place_play(
            old(frame)@,
            channels as int,
            old(play).view(),
            offset as int,
            width as int,
        ),
{
    match play.next_block() {
        Some((samples, _)) => {
            proof {
                whole_frames(channels as int);
                assert(0 <= FRAMES_PER_PACKET * width <= 64 * 65535) by (nonlinear_arith)
                    requires
                        FRAMES_PER_PACKET == 64,
                        0 <= width <= 65535,
                ;
                fitting_lane_is_inside(
                    frame@.len(),
                    channels as int,
                    offset as int,
                    width as int,
                    lane_len(frame@.len(), channels as int, width as int, samples@.len()) as int,
                );
                place_play_len(
                    frame@,
                    channels as int,
                    old(play).view(),
                    offset as int,
                    width as int,
                );
            }
            place_lane(frame.as_mut_slice(), channels, offset, width, samples.as_slice());
            true
        },
        None => false,
    }
}

/// Flows 1 and 4: full-width frames for the device, as a source of blocks. What
/// the members play out goes to their lanes; what they play into our inputs is
/// summed and goes to ours. `plus` is the addition of two samples.
pub struct HubMix<'a, F: Fn(u32, u32) -> u32> {
    pub members: Vec<LaneMember>,
    pub channels: usize,
    pub my_in: Option<usize>,
    pub n_in: usize,
    pub pairs: &'a Vec<(u16, u16)>,
    pub plus: &'a F,
}

impl<'a, F: Fn(u32, u32) -> u32> HubMix<'a, F> {
    /// `block` is the frame of a round.
    pub open spec fn is_frame(&self, members: Seq<LaneMemberView>, block: Seq<u32>) -> bool {
        let ch = self.channels as int;
        let base = member_frame(members, ch, members.len());
        let plays = return_plays(members);
        if self.my_in is Some && any_plays(plays) {
            exists|sum: Seq<u32>| #[trigger]
                is_mix(*self.plus, plays, self.pairs@, self.n_in as int, sum) && block == placed(
                    base,
                    ch,
                    self.my_in->0 as int,
                    self.n_in as int,
                    sum,
                    sum.len(),
                )
        } else {
            block == base
        }
    }

    /// There is something to play.
    pub open spec fn has_something(&self, members: Seq<LaneMemberView>) -> bool {
        any_plays(out_plays(members)) || (self.my_in is Some && any_plays(return_plays(members)))
    }

    /// What is played into our inputs can be mixed.
    pub open spec fn is_sound(&self, members: Seq<LaneMemberView>) -> bool {
        self.my_in is Some ==> all_mixable(return_plays(members), self.pairs@, self.n_in as int)
    }

    /// A lane of the device.
    pub open spec fn has_lane(&self, offset: usize, width: usize) -> bool {
        lane_fits(self.channels as int, offset as int, width as int)
    }

    /// All but the members is as in `other`.
    pub open spec fn same_setting(&self, other: Self) -> bool {
        &&& self.channels == other.channels
        &&& self.my_in == other.my_in
        &&& self.n_in == other.n_in
        &&& self.pairs == other.pairs
        &&& self.plus == other.plus
    }

    /// Plays every member's outputs into a frame. Also says whether there were
    /// any.
    fn place_members(&mut self) -> (r: (Vec<u32>, bool))
        requires
            old(self).fit(),
        ensures
            final(self).fit(),
            final(self).same_setting(*old(self)),
            r.0@.len() == FRAMES_PER_PACKET * old(self).channels,
            r.0@ == member_frame(
                old(self).model(),
                old(self).channels as int,
                old(self).model().len(),
            ),
            r.1 == any_plays(out_plays(old(self).model())),
            final(self).model() == old(self).model().map_values(
                |m: LaneMemberView| LaneMemberView { out_play: stepped(m.out_play), ..m },
            ),
    {
        let ghost start = self.model();
        let ghost ch = self.channels as int;
        let ghost outs = out_plays(start);
        assert(0 <= FRAMES_PER_PACKET * ch <= 64 * 65535);
        let mut frame: Vec<u32> = vec![0u32; FRAMES_PER_PACKET as usize * self.channels];
        assert(frame@ =~= silence((FRAMES_PER_PACKET * ch) as nat));
        let mut any = false;
        let mut n: usize = 0;
        while n < self.members.len()
            invariant
                n <= self.members@.len(),
                self.fit(),
                self.same_setting(*old(self)),
                start == old(self).model(),
                outs == out_plays(start),
                ch == self.channels,
                self.members@.len() == start.len(),
                frame@.len() == FRAMES_PER_PACKET * ch,
                frame@ == member_frame(start, ch, n as nat),
                any == exists|k: int| 0 <= k < n && (#[trigger] outs[k]).can_play(),
                forall|k: int|
                    0 <= k < start.len() ==> (#[trigger] self.members@[k])@ == if k < n {
                        LaneMemberView { out_play: stepped(start[k].out_play), ..start[k] }
                    } else {
                        start[k]
                    },
            decreases self.members.len() - n,
        {
            let ghost list = self.members@;
            assert(list[n as int]@ == start[n as int]);
            assert(outs[n as int] == list[n as int].out_play.view());
            let lane: usize = self.members[n].out_lane;
            let width: usize = self.members[n].out_width;
            let played = place_playout(
                &mut self.members[n].out_play,
                &mut frame,
                self.channels,
                lane,
                width,
            );
            if played {
                any = true;
            }
            assert forall|k: int| 0 <= k < start.len() implies (#[trigger] self.members@[k])@
                == if k < n + 1 {
                LaneMemberView { out_play: stepped(start[k].out_play), ..start[k] }
            } else {
                start[k]
            } by {
                if k != n {
                    assert(self.members@[k] == list[k]);
                }
            }
            n = n + 1;
        }
        assert(self.model() =~= start.map_values(
            |m: LaneMemberView| LaneMemberView { out_play: stepped(m.out_play), ..m },
        ));
        (frame, any)
    }

    /// Sums what the members play into our inputs.
    fn sum_returns(&mut self) -> (sum: Vec<u32>)
        requires
            old(self).fit(),
            old(self).my_in is Some,
            old(self).is_sound(old(self).model()),
        ensures
            final(self).fit(),
            final(self).same_setting(*old(self)),
            is_mix(
                *old(self).plus,
                return_plays(old(self).model()),
                old(self).pairs@,
                old(self).n_in as int,
                sum@,
            ),
            final(self).model() == old(self).model().map_values(
                |m: LaneMemberView| LaneMemberView { return_play: stepped(m.return_play), ..m },
            ),
    {
        let ghost start = self.model();
        let ghost plays = return_plays(start);
        let ghost pairs = self.pairs@;
        let ghost w = self.n_in as int;
        assert(0 <= FRAMES_PER_PACKET * w <= 64 * 65535);
        let mut sum: Vec<u32> = vec![0u32; FRAMES_PER_PACKET as usize * self.n_in];
        proof {
            silence_sums_up(*self.plus, plays, pairs, w, sum@);
        }
        let mut n: usize = 0;
        while n < self.members.len()
            invariant
                n <= self.members@.len(),
                self.fit(),
                self.same_setting(*old(self)),
                start == old(self).model(),
                plays == return_plays(start),
                pairs == self.pairs@,
                w == self.n_in,
                self.members@.len() == start.len(),
                all_mixable(plays, pairs, w),
                sums_up(*self.plus, plays, pairs, w, n as nat, sum@),
                forall|k: int|
                    0 <= k < start.len() ==> (#[trigger] self.members@[k])@ == if k < n {
                        LaneMemberView { return_play: stepped(start[k].return_play), ..start[k] }
                    } else {
                        start[k]
                    },
            decreases self.members.len() - n,
        {
            let ghost before = sum@;
            let ghost list = self.members@;
            assert(list[n as int]@ == start[n as int]);
            assert(plays[n as int] == list[n as int].return_play.view());
            assert(mixable(plays[n as int], pairs, w));
            add_playout(
                &mut self.members[n].return_play,
                &mut sum,
                self.pairs,
                self.n_in,
                self.plus,
            );
            proof {
                sum_grows(*self.plus, plays, pairs, w, n as nat, before, sum@);
                assert forall|k: int| 0 <= k < start.len() implies (
                #[trigger] self.members@[k])@ == if k < n + 1 {
                    LaneMemberView { return_play: stepped(start[k].return_play), ..start[k] }
                } else {
                    start[k]
                } by {
                    if k != n {
                        assert(self.members@[k] == list[k]);
                    }
                }
            }
            n = n + 1;
        }
        assert(self.model() =~= start.map_values(
            |m: LaneMemberView| LaneMemberView { return_play: stepped(m.return_play), ..m },
        ));
        sum
    }
}

/// A step uses up a round where there is one.
proof fn step_uses_up(play: PlayoutView)
    requires
        play.valid(),
    ensures
        stepped(play).reserve() <= play.reserve(),
        play.can_play() ==> stepped(play).reserve() < play.reserve(),
{
    if play.can_play() {
        playing_uses_up_the_reserve(play);
    }
}

/// Fewer rounds are left after one in which somebody played.
proof fn round_uses_up(before: Seq<PlayoutView>, after: Seq<PlayoutView>)
    requires
        after.len() == before.len(),
        forall|i: int| 0 <= i < before.len() ==> (#[trigger] before[i]).valid(),
        forall|i: int| 0 <= i < before.len() ==> #[trigger] after[i] == stepped(before[i]),
    ensures
        rounds_left(after) <= rounds_left(before),
        any_plays(before) ==> rounds_left(after) < rounds_left(before),
{
    assert forall|i: int| 0 <= i < before.len() implies (#[trigger] after[i]).reserve()
        <= before[i].reserve() by {
        step_uses_up(before[i]);
    }
    if any_plays(before) {
        let k = choose|k: int| 0 <= k < before.len() && (#[trigger] before[k]).can_play();
        step_uses_up(before[k]);
        assert(after[k].reserve() < before[k].reserve());
    }
    rounds_shrink(before, after);
}

impl<'a, F: Fn(u32, u32) -> u32> BlockSource for HubMix<'a, F> {
    type Model = Seq<LaneMemberView>;

    open spec fn model(&self) -> Seq<LaneMemberView> {
        lane_views(self.members@)
    }

    open spec fn fit(&self) -> bool {
        &&& 0 < self.channels <= u16::MAX
        &&& self.n_in <= self.channels
        &&& self.my_in matches Some(off) ==> self.has_lane(off, self.n_in)
        &&& forall|i: int|
            0 <= i < self.members@.len() ==> {
                &&& (#[trigger] self.members@[i]).wf()
                &&& self.has_lane(self.members@[i].out_lane, self.members@[i].out_width)
            }
        &&& forall|a: u32, b: u32| #[trigger] call_requires(*self.plus, (a, b))
    }

    open spec fn left(&self) -> nat {
        rounds_left(out_plays(self.model())) + rounds_left(return_plays(self.model()))
    }

    /// A frame comes where somebody plays out or into our inputs.
    open spec fn yields(
        &self,
        before: Seq<LaneMemberView>,
        outcome: YieldView,
        after: Seq<LaneMemberView>,
    ) -> bool {
        match outcome {
            YieldView::Block(b) => {
                &&& self.is_sound(before)
                &&& self.has_something(before)
                &&& self.is_frame(before, b)
                &&& after == before.map_values(
                    |m: LaneMemberView| after_round(m, self.my_in is Some),
                )
            },
            YieldView::Dry => {
                &&& self.is_sound(before)
                &&& !self.has_something(before)
                &&& after == before
            },
            YieldView::Broken => !self.is_sound(before) && after == before,
        }
    }

    fn next(&mut self) -> Yield {
        let ghost start = self.model();
        let ghost plays = return_plays(start);
        let mut any_return = false;
        if self.my_in.is_some() {
            let mut i: usize = 0;
            while i < self.members.len()
                invariant
                    i <= self.members@.len(),
                    self.fit(),
                    *self == *old(self),
                    self.my_in is Some,
                    start == self.model(),
                    plays == return_plays(start),
                    any_return == exists|k: int| 0 <= k < i && (#[trigger] plays[k]).can_play(),
                    forall|k: int|
                        0 <= k < i ==> mixable(
                            #[trigger] plays[k],
                            self.pairs@,
                            self.n_in as int,
                        ),
                decreases self.members.len() - i,
            {
                assert(plays[i as int] == self.members@[i as int].return_play.view());
                match takes_part(&self.members[i].return_play, self.pairs, self.n_in) {
                    Some(true) => {
                        any_return = true;
                    },
                    Some(false) => {
                        return Yield::Broken;
                    },
                    None => {},
                }
                i = i + 1;
            }
        }
        assert(any_return == (self.my_in is Some && any_plays(plays)));
        let (frame, any_out) = self.place_members();
        let mut frame = frame;
        let ghost placed_model = self.model();
        assert(return_plays(placed_model) =~= plays);
        if !any_out && !any_return {
            assert forall|k: int| 0 <= k < start.len() implies #[trigger] placed_model[k]
                == start[k] by {
                assert(!out_plays(start)[k].can_play());
            }
            assert(placed_model =~= start);
            return Yield::Dry;
        }
        if any_return {
            let off: usize = match self.my_in {
                Some(off) => off,
                None => 0,
            };
            let sum = self.sum_returns();
            proof {
                let ch = self.channels as int;
                whole_frames(ch);
                fitting_lane_is_inside(
                    frame@.len(),
                    ch,
                    off as int,
                    self.n_in as int,
                    sum@.len() as int,
                );
                assert(lane_len(frame@.len(), ch, self.n_in as int, sum@.len()) == sum@.len());
            }
            place_lane(frame.as_mut_slice(), self.channels, off, self.n_in, sum.as_slice());
        }
        proof {
            let inputs = self.my_in is Some;
            let after = self.model();
            let want = start.map_values(|m: LaneMemberView| after_round(m, inputs));
            assert forall|k: int| 0 <= k < start.len() implies #[trigger] after[k] == want[k] by {
                assert(placed_model[k].return_play == start[k].return_play);
                if inputs && !any_return {
                    assert(!plays[k].can_play());
                }
            }
            assert(after =~= want);
            let outs = out_plays(start);
            assert forall|k: int| 0 <= k < start.len() implies (#[trigger] outs[k]).valid() by {
                old(self).members@[k].out_play.wf_is_valid();
                assert(outs[k] == old(self).members@[k].out_play.view());
            }
            assert forall|k: int| 0 <= k < start.len() implies #[trigger] out_plays(after)[k]
                == stepped(outs[k]) by {
                assert(after[k] == want[k]);
            }
            round_uses_up(outs, out_plays(after));
            if inputs {
                assert forall|k: int| 0 <= k < start.len() implies (#[trigger] plays[k]).valid() by {
                    old(self).members@[k].return_play.wf_is_valid();
                    assert(plays[k] == old(self).members@[k].return_play.view());
                }
                assert forall|k: int| 0 <= k < start.len() implies #[trigger] return_plays(after)[k]
                    == stepped(plays[k]) by {
                    assert(after[k] == want[k]);
                }
                round_uses_up(plays, return_plays(after));
            } else {
                assert(return_plays(after) =~= plays);
            }
        }
        Yield::Block(frame)
    }
}

/// Every member has kept its place.
pub open spec fn same_places(a: Seq<LaneMemberView>, b: Seq<LaneMemberView>) -> bool {
    &&& a.len() == b.len()
    &&& forall|i: int| 0 <= i < a.len() ==> (#[trigger] b[i]).keeps_place(a[i])
}

proof fn rounds_keep_places<'a, F: Fn(u32, u32) -> u32>(
    mix: HubMix<'a, F>,
    models: Seq<Seq<LaneMemberView>>,
    blocks: Seq<Seq<u32>>,
    n: int,
)
    requires
        yielded(mix, models, blocks),
        0 <= n < models.len(),
    ensures
        same_places(models[0], models[n]),
    decreases n,
{
    if n > 0 {
        rounds_keep_places(mix, models, blocks, n - 1);
        assert(mix.yields(models[n - 1], YieldView::Block(blocks[n - 1]), models[n - 1 + 1]));
    }
}

/// However long a refill goes on, the members keep their places, and the ring
/// stays near its target.
proof fn refill_keeps_places<'a, F: Fn(u32, u32) -> u32>(
    ring: SampleProducer,
    ring_after: SampleProducer,
    target_occ: nat,
    block_len: nat,
    mix: HubMix<'a, F>,
    after: Seq<LaneMemberView>,
    sound: bool,
    v: HubView,
)
    requires
        refilled(ring, ring_after, target_occ, block_len, mix, after, sound),
        mix.fit(),
        mix.model() == v.members,
        mix.channels == v.chans.channels,
        v.valid(),
    ensures
        same_places(mix.model(), after),
        fill(ring_after) <= fill(ring) || fill(ring_after) < target_occ + FRAMES_PER_PACKET
            * mix.channels,
{
    let (models, blocks, rings) = choose|
        models: Seq<Seq<LaneMemberView>>,
        blocks: Seq<Seq<u32>>,
        rings: Seq<SampleProducer>,
    | #[trigger]
        refill_run(
            ring,
            ring_after,
            target_occ,
            block_len,
            mix,
            after,
            sound,
            models,
            blocks,
            rings,
        );
    rounds_keep_places(mix, models, blocks, models.len() - 1);
    if blocks.len() > 0 {
        let n = blocks.len() - 1;
        rounds_keep_places(mix, models, blocks, n);
        assert(mix.yields(models[n], YieldView::Block(blocks[n]), models[n + 1]));
        same_places_valid(v, models[n]);
        frame_len(HubView { members: models[n], ..v }, mix, blocks[n]);
    }
}

/// The frame of a round is as wide as the device.
proof fn frame_len<'a, F: Fn(u32, u32) -> u32>(v: HubView, mix: HubMix<'a, F>, block: Seq<u32>)
    requires
        v.valid(),
        mix.fit(),
        mix.channels == v.chans.channels,
        mix.is_frame(v.members, block),
    ensures
        block.len() == FRAMES_PER_PACKET * mix.channels,
{
    let ch = mix.channels as int;
    let base = member_frame(v.members, ch, v.members.len());
    member_frame_len(v, v.members.len());
    if mix.my_in is Some && any_plays(return_plays(v.members)) {
        let sum = choose|sum: Seq<u32>| #[trigger]
            is_mix(
                *mix.plus,
                return_plays(v.members),
                mix.pairs@,
                mix.n_in as int,
                sum,
            ) && block == placed(
                base,
                ch,
                mix.my_in->0 as int,
                mix.n_in as int,
                sum,
                sum.len(),
            );
        whole_frames(ch);
        placed_len(base, ch, mix.my_in->0 as int, mix.n_in as int, sum, sum.len());
    }
}

proof fn same_places_valid(v: HubView, after: Seq<LaneMemberView>)
    requires
        v.valid(),
        same_places(v.members, after),
    ensures
        (HubView { members: after, ..v }).valid(),
{
    let w = HubView { members: after, ..v };
    assert forall|k: int| 0 <= k < w.members.len() implies w.lanes_inside(
        #[trigger] w.members[k],
    ) by {
        assert(v.lanes_inside(v.members[k]));
        assert(after[k].keeps_place(v.members[k]));
    }
    assert forall|a: int, b: int| 0 <= a < b < w.members.len() implies separate(
        #[trigger] w.members[a],
        #[trigger] w.members[b],
    ) by {
        assert(separate(v.members[a], v.members[b]));
        assert(after[a].keeps_place(v.members[a]));
        assert(after[b].keeps_place(v.members[b]));
    }
}

/// The sample rate of the shared device.
pub const HUB_RATE: u16 = 48_000;

impl HubView {
    /// The packet of our outputs that a frame from the device makes.
    pub open spec fn own_packet(self, frame: Seq<u32>) -> PacketView {
        PacketView {
            seq: self.out_seq,
            sample_rate: HUB_RATE,
            channels: (self.n_out % 256) as u8,
            frames: FRAMES_PER_PACKET,
            samples: extracted(
                frame,
                self.chans.channels as int,
                self.chans.split as int,
                self.n_out as int,
            ),
        }
    }

    /// The packet for member `i` that a frame from the device makes.
    pub open spec fn packet_for(self, i: int, frame: Seq<u32>) -> PacketView {
        let m = self.members[i];
        PacketView {
            seq: m.in_seq,
            sample_rate: HUB_RATE,
            channels: (m.in_width % 256) as u8,
            frames: FRAMES_PER_PACKET,
            samples: extracted(
                frame,
                self.chans.channels as int,
                m.in_lane as int,
                m.in_width as int,
            ),
        }
    }

    /// Our outputs go to everybody, if we have any.
    pub open spec fn own_mail(self, frame: Seq<u32>, dests: Seq<Addr>) -> Seq<(Addr, PacketView)> {
        if self.n_out > 0 {
            Seq::new(dests.len(), |i: int| (dests[i], self.own_packet(frame)))
        } else {
            Seq::empty()
        }
    }

    /// What the user plays into the first `n` members goes to each that has
    /// inputs.
    pub open spec fn member_mail(self, frame: Seq<u32>, in_port: u16, n: nat) -> Seq<
        (Addr, PacketView),
    >
        decreases n,
    {
        if n == 0 {
            Seq::empty()
        } else {
            let front = self.member_mail(frame, in_port, (n - 1) as nat);
            let m = self.members[n - 1];
            if m.in_width > 0 {
                front.push((Addr { ip: m.ip, port: in_port }, self.packet_for(n - 1, frame)))
            } else {
                front
            }
        }
    }

    /// Whoever has been sent a packet gets the next sequence number.
    pub open spec fn mailed(self) -> HubView {
        HubView {
            out_seq: if self.n_out > 0 {
                successor(self.out_seq)
            } else {
                self.out_seq
            },
            members: self.members.map_values(|m: LaneMemberView| m.mailed()),
            ..self
        }
    }
}

impl LaneMemberView {
    /// The member once it has been sent a packet, if it has inputs.
    pub open spec fn mailed(self) -> LaneMemberView {
        LaneMemberView {
            in_seq: if self.in_width > 0 {
                successor(self.in_seq)
            } else {
                self.in_seq
            },
            ..self
        }
    }
}

/// The datagrams carry these packets.
pub open spec fn all_carry(out: Seq<Datagram>, mail: Seq<(Addr, PacketView)>) -> bool {
    &&& out.len() == mail.len()
    &&& forall|i: int| 0 <= i < out.len() ==> carries(#[trigger] out[i], mail[i].0, mail[i].1)
}

impl HubState {
    /// Flows 1 and 4: keeps the device's record ring topped up to the target
    /// depth with full-width frames, paced by the device clock. False where a
    /// member's block is too short to be mixed.
    pub fn feed_device<F: Fn(u32, u32) -> u32>(
        &mut self,
        ring: &mut SampleProducer,
        target_frames: usize,
        plus: &F,
    ) -> (sound: bool)
        requires
            old(self).wf(),
            target_frames <= RING_FRAMES,
            forall|a: u32, b: u32| #[trigger] call_requires(*plus, (a, b)),
        ensures
            final(self).wf(),
            final(self)@ == (HubView { members: final(self)@.members, ..old(self)@ }),
            refilled(
                *old(ring),
                *final(ring),
                (target_frames * old(self).channels) as nat,
                (FRAMES_PER_PACKET * old(self).channels) as nat,
                (HubMix {
                    members: old(self).members,
                    channels: old(self).channels,
                    my_in: old(self).my_in,
                    n_in: old(self).n_in,
                    pairs: &old(self).pairs,
                    plus,
                }),
                final(self)@.members,
                sound,
            ),
            fill(*final(ring)) <= fill(*old(ring)) || fill(*final(ring)) < (target_frames
                + FRAMES_PER_PACKET) * old(self).channels,
    {
        let mut members: Vec<LaneMember> = Vec::new();
        std::mem::swap(&mut members, &mut self.members);
        proof {
            let v = old(self)@;
            assert forall|i: int| 0 <= i < members@.len() implies lane_fits(
                self.channels as int,
                (#[trigger] members@[i]).out_lane as int,
                members@[i].out_width as int,
            ) by {
                assert(v.lanes_inside(v.members[i]));
            }
            assert(0 <= target_frames * self.channels <= 4096 * 65535) by (nonlinear_arith)
                requires
                    0 <= target_frames <= 4096,
                    0 <= self.channels <= 65535,
            ;
        }
        let mut mix = HubMix {
            members,
            channels: self.channels,
            my_in: self.my_in,
            n_in: self.n_in,
            pairs: &self.pairs,
            plus,
        };
        let ghost source = mix;
        let sound = refill(
            ring,
            target_frames * self.channels,
            FRAMES_PER_PACKET as usize * self.channels,
            &mut mix,
        );
        proof {
            refill_keeps_places(
                *old(ring),
                *ring,
                (target_frames * self.channels) as nat,
                (FRAMES_PER_PACKET * self.channels) as nat,
                source,
                mix.model(),
                sound,
                old(self)@,
            );
            assert((target_frames + 64) * self.channels == target_frames * self.channels + 64
                * self.channels) by (nonlinear_arith);
            same_places_valid(old(self)@, mix.model());
        }
        self.members = mix.members;
        sound
    }

    /// Flows 2 and 3: a full-width frame that the user played, taken apart. Our
    /// outputs go to all of `out_dests`; what was played into a member's inputs
    /// goes to that member.
    pub fn on_frame(&mut self, frame: &[u32], out_dests: &Vec<Addr>, in_port: u16) -> (out: Vec<
        Datagram,
    >)
        requires
            old(self).wf(),
            frame@.len() == FRAMES_PER_PACKET * old(self).channels,
        ensures
            final(self).wf(),
            final(self)@ == old(self)@.mailed(),
            all_carry(
                out@,
                old(self)@.own_mail(frame@, out_dests@) + old(self)@.member_mail(
                    frame@,
                    in_port,
                    old(self)@.members.len(),
                ),
            ),
    {
        let ghost v = self@;
        let ghost own = v.own_mail(frame@, out_dests@);
        let mut out: Vec<Datagram> = Vec::new();
        if let Some(off) = self.my_out {
            proof {
                lane_can_be_read(frame@, self.channels, off, self.n_out);
            }
            let packet = AudioPacket {
                seq: self.out_seq,
                sample_rate: HUB_RATE,
                channels: (self.n_out % 256) as u8,
                frames: FRAMES_PER_PACKET,
                samples: extract_lane(frame, self.channels, off, self.n_out),
            };
            assert(packet@ == v.own_packet(frame@));
            let encoded = packet.encode();
            let mut i: usize = 0;
            while i < out_dests.len()
                invariant
                    i <= out_dests@.len(),
                    v.n_out > 0,
                    own == v.own_mail(frame@, out_dests@),
                    encoded@ == v.own_packet(frame@).wire(),
                    all_carry(out@, own.take(i as int)),
                decreases out_dests.len() - i,
            {
                let ghost prev = out@;
                out.push(Datagram { dest: out_dests[i], bytes: copied(encoded.as_slice()) });
                assert forall|k: int| 0 <= k < out@.len() implies carries(
                    #[trigger] out@[k],
                    own.take(i + 1)[k].0,
                    own.take(i + 1)[k].1,
                ) by {
                    if k < i {
                        assert(out@[k] == prev[k]);
                        assert(own.take(i + 1)[k] == own.take(i as int)[k]);
                    }
                }
                i = i + 1;
            }
            assert(own.take(i as int) =~= own);
            self.out_seq = self.out_seq.wrapping_add(1);
        }
        let ghost second = self@;
        assert(own + v.member_mail(frame@, in_port, 0) =~= own);
        let mut n: usize = 0;
        while n < self.members.len()
            invariant
                n <= self.members@.len(),
                v == old(self)@,
                v.valid(),
                own == v.own_mail(frame@, out_dests@),
                self.wf(),
                self.channels == v.chans.channels,
                frame@.len() == FRAMES_PER_PACKET * self.channels,
                self@ == (HubView { members: self@.members, ..second }),
                second == (HubView { out_seq: v.mailed().out_seq, ..v }),
                self.members@.len() == v.members.len(),
                forall|k: int|
                    0 <= k < v.members.len() ==> (#[trigger] self.members@[k])@ == if k < n {
                        v.members[k].mailed()
                    } else {
                        v.members[k]
                    },
                all_carry(out@, own + v.member_mail(frame@, in_port, n as nat)),
            decreases self.members.len() - n,
        {
            let ghost list = self.members@;
            let ghost at = self@;
            assert(list[n as int]@ == v.members[n as int]);
            assert(at.lanes_inside(at.members[n as int]));
            let width: usize = self.members[n].in_width;
            if width > 0 {
                let lane: usize = self.members[n].in_lane;
                proof {
                    lane_can_be_read(frame@, self.channels, lane, width);
                }
                let packet = AudioPacket {
                    seq: self.members[n].in_seq,
                    sample_rate: HUB_RATE,
                    channels: (width % 256) as u8,
                    frames: FRAMES_PER_PACKET,
                    samples: extract_lane(frame, self.channels, lane, width),
                };
                assert(packet@ == v.packet_for(n as int, frame@));
                let ghost prev = out@;
                let ghost mail = own + v.member_mail(frame@, in_port, n as nat);
                let dest = Addr { ip: self.members[n].ip, port: in_port };
                out.push(Datagram { dest, bytes: packet.encode() });
                proof {
                    let next = own + v.member_mail(frame@, in_port, (n + 1) as nat);
                    assert(next =~= mail.push((dest, packet@)));
                    assert forall|k: int| 0 <= k < out@.len() implies carries(
                        #[trigger] out@[k],
                        next[k].0,
                        next[k].1,
                    ) by {
                        if k < prev.len() {
                            assert(out@[k] == prev[k]);
                            assert(next[k] == mail[k]);
                        }
                    }
                }
                self.members[n].in_seq = packet.seq.wrapping_add(1);
            }
            proof {
                let m = v.members[n as int].mailed();
                assert(self@.members =~= at.members.update(n as int, m));
                changing_keeps_valid(at, n as int, m);
                assert forall|k: int| 0 <= k < v.members.len() implies (
                #[trigger] self.members@[k])@ == if k < n + 1 {
                    v.members[k].mailed()
                } else {
                    v.members[k]
                } by {
                    if k != n {
                        assert(self.members@[k] == list[k]);
                    }
                }
            }
            n = n + 1;
        }
        assert(self@.members =~= v.mailed().members);
        out
    }
}

/// A lane of the device can be read out of a block of whole frames.
proof fn lane_can_be_read(frame: Seq<u32>, channels: usize, offset: usize, width: usize)
    requires
        0 < channels <= u16::MAX,
        frame.len() == FRAMES_PER_PACKET * channels,
        lane_fits(channels as int, offset as int, width as int),
    ensures
        frame.len() as int / channels as int == FRAMES_PER_PACKET,
        0 <= FRAMES_PER_PACKET * width <= usize::MAX,
        lane_inside(
            frame.len() as int,
            channels as int,
            offset as int,
            width as int,
            (frame.len() as int / channels as int) * width,
        ),
{
    whole_frames(channels as int);
    fitting_lane_is_inside(
        frame.len(),
        channels as int,
        offset as int,
        width as int,
        (frame.len() as int / channels as int) * width,
    );
}

proof fn member_frame_len(v: HubView, n: nat)
    requires
        v.valid(),
        n <= v.members.len(),
    ensures
        member_frame(v.members, v.chans.channels as int, n).len() == FRAMES_PER_PACKET
            * v.chans.channels,
    decreases n,
{
    if n > 0 {
        let m = v.members[n - 1];
        assert(v.lanes_inside(m));
        member_frame_len(v, (n - 1) as nat);
        place_play_len(
            member_frame(v.members, v.chans.channels as int, (n - 1) as nat),
            v.chans.channels as int,
            m.out_play,
            m.out_lane as int,
            m.out_width as int,
        );
    }
}

/// Placing another block leaves a lane that shares no channel with it as it was.
proof fn play_leaves_lane(
    frame: Seq<u32>,
    channels: int,
    play: PlayoutView,
    offset: nat,
    width: nat,
    other_offset: nat,
    other_width: nat,
)
    requires
        lane_fits(channels, offset as int, width as int),
        lane_fits(channels, other_offset as int, other_width as int),
        apart(offset, width, other_offset, other_width),
    ensures
        extracted(
            place_play(frame, channels, play, offset as int, width as int),
            channels,
            other_offset as int,
            other_width as int,
        ) == extracted(frame, channels, other_offset as int, other_width as int),
{
    if play.can_play() {
        let block = play.next_block().0;
        let frames = frame.len() as int / channels;
        let n = lane_len(frame.len(), channels, width as int, block.len());
        assert(0 <= frames) by (nonlinear_arith)
            requires
                frames == frame.len() as int / channels,
                0 < channels,
        ;
        if width == 0 {
            assert(frames * width == 0);
        } else if other_width == 0 {
            place_play_len(frame, channels, play, offset as int, width as int);
            let after = place_play(frame, channels, play, offset as int, width as int);
            assert(frames * other_width == 0);
            assert(extracted(after, channels, other_offset as int, other_width as int)
                =~= extracted(frame, channels, other_offset as int, other_width as int));
        } else {
            placing_leaves_other_lanes(
                frame,
                channels,
                offset as int,
                width as int,
                block,
                n,
                other_offset as int,
                other_width as int,
            );
        }
    }
}

proof fn frame_carries_member(v: HubView, n: nat, i: int)
    requires
        v.valid(),
        0 <= i < n <= v.members.len(),
        v.members[i].out_play.can_play(),
        v.members[i].out_play.next_block().0.len() == FRAMES_PER_PACKET * v.members[i].out_width,
    ensures
        extracted(
            member_frame(v.members, v.chans.channels as int, n),
            v.chans.channels as int,
            v.members[i].out_lane as int,
            v.members[i].out_width as int,
        ) == v.members[i].out_play.next_block().0,
    decreases n,
{
    let ch = v.chans.channels as int;
    let m = v.members[n - 1];
    let before = member_frame(v.members, ch, (n - 1) as nat);
    assert(v.lanes_inside(m));
    assert(v.lanes_inside(v.members[i]));
    member_frame_len(v, (n - 1) as nat);
    whole_frames(ch);
    if i == n - 1 {
        let block = m.out_play.next_block().0;
        assert(lane_len(before.len(), ch, m.out_width as int, block.len()) == block.len());
        extract_inverts_place(before, ch, m.out_lane as int, m.out_width as int, block);
    } else {
        frame_carries_member(v, (n - 1) as nat, i);
        assert(separate(v.members[i], v.members[n - 1]));
        play_leaves_lane(
            before,
            ch,
            m.out_play,
            m.out_lane,
            m.out_width,
            v.members[i].out_lane,
            v.members[i].out_width,
        );
    }
}

/// In every frame that is written to the device, the lane of a member who plays
/// holds exactly what that member plays, whoever else plays beside it and
/// whatever is mixed onto our inputs.
pub proof fn frame_holds_every_member<'a, F: Fn(u32, u32) -> u32>(
    v: HubView,
    mix: HubMix<'a, F>,
    block: Seq<u32>,
    i: int,
)
    requires
        v.valid(),
        mix.channels == v.chans.channels,
        mix.n_in == v.n_in,
        mix.my_in is Some <==> v.my_in() is Some,
        mix.my_in matches Some(off) ==> off == v.my_in()->0,
        mix.is_frame(v.members, block),
        0 <= i < v.members.len(),
        v.members[i].out_play.can_play(),
        v.members[i].out_play.next_block().0.len() == FRAMES_PER_PACKET * v.members[i].out_width,
    ensures
        extracted(
            block,
            v.chans.channels as int,
            v.members[i].out_lane as int,
            v.members[i].out_width as int,
        ) == v.members[i].out_play.next_block().0,
{
    let ch = v.chans.channels as int;
    let m = v.members[i];
    let base = member_frame(v.members, ch, v.members.len());
    assert(v.lanes_inside(m));
    frame_carries_member(v, v.members.len(), i);
    member_frame_len(v, v.members.len());
    whole_frames(ch);
    if mix.my_in is Some && any_plays(return_plays(v.members)) {
        let sum = choose|sum: Seq<u32>| #[trigger]
            is_mix(
                *mix.plus,
                return_plays(v.members),
                mix.pairs@,
                mix.n_in as int,
                sum,
            ) && block == placed(
                base,
                ch,
                mix.my_in->0 as int,
                mix.n_in as int,
                sum,
                sum.len(),
            );
        if m.out_width > 0 {
            placing_leaves_other_lanes(
                base,
                ch,
                0,
                v.n_in as int,
                sum,
                sum.len(),
                m.out_lane as int,
                m.out_width as int,
            );
        } else {
            placed_len(base, ch, 0, v.n_in as int, sum, sum.len());
            assert(extracted(block, ch, m.out_lane as int, 0) =~= extracted(
                base,
                ch,
                m.out_lane as int,
                0,
            ));
        }
    }
}

/// A channel that is written is never one that is read, so nothing that is
/// written for the user to record comes back as something played: neither a
/// member's outputs nor what is mixed onto our inputs, to a member or to us.
pub proof fn written_lanes_are_never_read(v: HubView, i: int, j: int)
    requires
        v.valid(),
        0 <= i < v.members.len(),
        0 <= j < v.members.len(),
    ensures
        apart(
            v.members[i].out_lane,
            v.members[i].out_width,
            v.members[j].in_lane,
            v.members[j].in_width,
        ),
        apart(v.members[i].out_lane, v.members[i].out_width, v.chans.split, v.n_out),
        apart(0, v.n_in, v.members[j].in_lane, v.members[j].in_width),
        apart(0, v.n_in, v.chans.split, v.n_out),
{
    assert(v.lanes_inside(v.members[i]));
    assert(v.lanes_inside(v.members[j]));
}

/// Nobody else's channels are ever ours.
pub proof fn our_lanes_are_our_own(v: HubView, i: int)
    requires
        v.valid(),
        0 <= i < v.members.len(),
    ensures
        apart(0, v.n_in, v.members[i].out_lane, v.members[i].out_width),
        apart(v.chans.split, v.n_out, v.members[i].in_lane, v.members[i].in_width),
{
    assert(v.lanes_inside(v.members[i]));
}

/// A member's seat is the last one of its address, if there is any.
pub proof fn lane_seat_is_the_last_of_its_address(members: Seq<LaneMemberView>, ip: Ip)
    ensures
        lane_seat(members, ip) is None <==> forall|k: int|
            0 <= k < members.len() ==> (#[trigger] members[k]).ip != ip,
        lane_seat(members, ip) matches Some(i) ==> {
            &&& 0 <= i < members.len()
            &&& members[i].ip == ip
            &&& forall|k: int| i < k < members.len() ==> (#[trigger] members[k]).ip != ip
        },
    decreases members.len(),
{
    lane_seat_holds(members, ip);
    if members.len() > 0 && members.last().ip != ip {
        let front = members.drop_last();
        lane_seat_is_the_last_of_its_address(front, ip);
        assert(forall|k: int| 0 <= k < front.len() ==> front[k] == members[k]);
        if let Some(i) = lane_seat(members, ip) {
            assert forall|k: int| i < k < members.len() implies (#[trigger] members[k]).ip
                != ip by {
                if k < front.len() {
                    assert(front[k].ip != ip);
                }
            }
        }
    } else if members.len() > 0 {
        assert(members[members.len() - 1].ip == ip);
    }
}

/// The packet that a member is sent of a frame from the device: its own number, the
/// device's rate, and in channel `c` what its lane's channel `c` held, frame by
/// frame.
pub proof fn member_packet_is_its_lane(v: HubView, frame: Seq<u32>, i: int)
    requires
        v.valid(),
        frame.len() == 64 * v.chans.channels,
        0 <= i < v.members.len(),
    ensures
        ({
            let m = v.members[i];
            let p = v.packet_for(i, frame);
            &&& p.seq == m.in_seq
            &&& p.sample_rate == 48_000
            &&& p.channels == m.in_width % 256
            &&& p.frames == 64
            &&& p.samples.len() == 64 * m.in_width
            &&& forall|f: int, c: int|
                0 <= f < 64 && 0 <= c < m.in_width ==> #[trigger] p.samples[f * m.in_width + c]
                    == frame[f * v.chans.channels + m.in_lane + c]
        }),
{
    let ch = v.chans.channels as int;
    let m = v.members[i];
    assert(v.lanes_inside(m));
    whole_frames(ch);
    extracted_block_is_the_lane(frame, ch, m.in_lane as int, m.in_width as int);
}

/// The packet of our outputs that a frame from the device makes: channel `c` is what
/// the playback region's channel `c` held, frame by frame.
pub proof fn own_packet_is_our_lane(v: HubView, frame: Seq<u32>)
    requires
        v.valid(),
        frame.len() == 64 * v.chans.channels,
    ensures
        ({
            let p = v.own_packet(frame);
            &&& p.seq == v.out_seq
            &&& p.sample_rate == 48_000
            &&& p.channels == v.n_out % 256
            &&& p.frames == 64
            &&& p.samples.len() == 64 * v.n_out
            &&& forall|f: int, c: int|
                0 <= f < 64 && 0 <= c < v.n_out ==> #[trigger] p.samples[f * v.n_out + c]
                    == frame[f * v.chans.channels + v.chans.split + c]
        }),
{
    let ch = v.chans.channels as int;
    whole_frames(ch);
    extracted_block_is_the_lane(frame, ch, v.chans.split as int, v.n_out as int);
}

proof fn mail_reaches(v: HubView, frame: Seq<u32>, in_port: u16, n: nat, i: int)
    requires
        0 <= i < n <= v.members.len(),
        v.members[i].in_width > 0,
    ensures
        exists|k: int|
            0 <= k < v.member_mail(frame, in_port, n).len() && #[trigger] v.member_mail(
                frame,
                in_port,
                n,
            )[k] == (Addr { ip: v.members[i].ip, port: in_port }, v.packet_for(i, frame)),
    decreases n,
{
    let mail = v.member_mail(frame, in_port, n);
    let front = v.member_mail(frame, in_port, (n - 1) as nat);
    if i == n - 1 {
        assert(mail[front.len() as int] == (
            Addr { ip: v.members[i].ip, port: in_port },
            v.packet_for(i, frame),
        ));
    } else {
        mail_reaches(v, frame, in_port, (n - 1) as nat, i);
        let k = choose|k: int|
            0 <= k < front.len() && #[trigger] front[k] == (
                Addr { ip: v.members[i].ip, port: in_port },
                v.packet_for(i, frame),
            );
        assert(mail[k] == front[k]);
    }
}

proof fn mail_is_somebodys(v: HubView, frame: Seq<u32>, in_port: u16, n: nat, k: int)
    requires
        n <= v.members.len(),
        0 <= k < v.member_mail(frame, in_port, n).len(),
    ensures
        exists|i: int|
            0 <= i < n && (#[trigger] v.members[i]).in_width > 0 && v.member_mail(
                frame,
                in_port,
                n,
            )[k] == (Addr { ip: v.members[i].ip, port: in_port }, v.packet_for(i, frame)),
    decreases n,
{
    if n > 0 {
        let front = v.member_mail(frame, in_port, (n - 1) as nat);
        if k < front.len() {
            mail_is_somebodys(v, frame, in_port, (n - 1) as nat, k);
            let i = choose|i: int|
                0 <= i < n - 1 && (#[trigger] v.members[i]).in_width > 0 && front[k] == (
                    Addr { ip: v.members[i].ip, port: in_port },
                    v.packet_for(i, frame),
                );
            assert(v.members[i].in_width > 0);
        } else {
            assert(v.members[n - 1].in_width > 0);
        }
    }
}

proof fn mail_count(v: HubView, frame: Seq<u32>, in_port: u16, n: nat)
    requires
        n <= v.members.len(),
    ensures
        v.member_mail(frame, in_port, n).len() == v.members.take(n as int).filter(
            |m: LaneMemberView| m.in_width > 0,
        ).len(),
    decreases n,
{
    reveal(Seq::filter);
    if n > 0 {
        mail_count(v, frame, in_port, (n - 1) as nat);
        assert(v.members.take(n as int).drop_last() =~= v.members.take(n - 1));
        assert(v.members.take(n as int).last() == v.members[n - 1]);
    }
}

/// Every member that has inputs is sent what was played into its lane: among the
/// datagrams of a frame is one to its address and the inputs port, which is read
/// there as a packet with its own number and, in channel `c` of frame `f`, what
/// channel `c` of its lane held in that frame.
pub proof fn every_member_with_inputs_is_sent_its_lane(
    v: HubView,
    frame: Seq<u32>,
    out_dests: Seq<Addr>,
    in_port: u16,
    out: Seq<Datagram>,
    i: int,
)
    requires
        v.valid(),
        frame.len() == 64 * v.chans.channels,
        all_carry(
            out,
            v.own_mail(frame, out_dests) + v.member_mail(frame, in_port, v.members.len()),
        ),
        0 <= i < v.members.len(),
        v.members[i].in_width > 0,
    ensures
        exists|k: int|
            {
                let m = v.members[i];
                &&& 0 <= k < out.len()
                &&& (#[trigger] out[k]).dest.ip == m.ip
                &&& out[k].dest.port == in_port
                &&& out[k].bytes@ == v.packet_for(i, frame).wire()
                &&& m.in_width <= 255 ==> {
                    &&& reading(out[k].bytes@) matches Some(p)
                    &&& p.seq == m.in_seq
                    &&& p.sample_rate == 48_000
                    &&& p.channels == m.in_width
                    &&& p.frames == 64
                    &&& p.samples.len() == 64 * m.in_width
                    &&& forall|f: int, c: int|
                        0 <= f < 64 && 0 <= c < m.in_width ==> #[trigger] p.samples[f * m.in_width
                            + c] == frame[f * v.chans.channels + m.in_lane + c]
                }
            },
{
    let own = v.own_mail(frame, out_dests);
    let mail = v.member_mail(frame, in_port, v.members.len());
    let m = v.members[i];
    let p = v.packet_for(i, frame);
    mail_reaches(v, frame, in_port, v.members.len(), i);
    let j = choose|j: int|
        0 <= j < mail.len() && #[trigger] mail[j] == (Addr { ip: m.ip, port: in_port }, p);
    let k = own.len() + j;
    assert((own + mail)[k] == mail[j]);
    assert(carries(out[k], Addr { ip: m.ip, port: in_port }, p));
    member_packet_is_its_lane(v, frame, i);
    if m.in_width <= 255 {
        assert(p.samples.len() == p.frames * p.channels);
        carried_packet_arrives(out[k], Addr { ip: m.ip, port: in_port }, p);
    }
}

/// Our outputs, where we have any, are sent to every one of `out_dests`, in order;
/// behind them there is one datagram for each member that has inputs and no other.
pub proof fn nothing_else_is_sent(
    v: HubView,
    frame: Seq<u32>,
    out_dests: Seq<Addr>,
    in_port: u16,
    out: Seq<Datagram>,
)
    requires
        v.valid(),
        frame.len() == 64 * v.chans.channels,
        all_carry(
            out,
            v.own_mail(frame, out_dests) + v.member_mail(frame, in_port, v.members.len()),
        ),
    ensures
        ({
            let own = if v.n_out > 0 {
                out_dests.len() as int
            } else {
                0
            };
            &&& out.len() == own + v.members.filter(|m: LaneMemberView| m.in_width > 0).len()
            &&& forall|k: int|
                0 <= k < own ==> {
                    &&& (#[trigger] out[k]).dest == out_dests[k]
                    &&& out[k].bytes@ == v.own_packet(frame).wire()
                    &&& v.n_out <= 255 ==> reading(out[k].bytes@) == Some(v.own_packet(frame))
                }
            &&& forall|k: int|
                own <= k < out.len() ==> exists|i: int|
                    {
                        &&& 0 <= i < v.members.len()
                        &&& (#[trigger] v.members[i]).in_width > 0
                        &&& (#[trigger] out[k]).dest == (Addr {
                            ip: v.members[i].ip,
                            port: in_port,
                        })
                        &&& out[k].bytes@ == v.packet_for(i, frame).wire()
                    }
        }),
{
    let own = v.own_mail(frame, out_dests);
    let mail = v.member_mail(frame, in_port, v.members.len());
    mail_count(v, frame, in_port, v.members.len());
    assert(v.members.take(v.members.len() as int) =~= v.members);
    own_packet_is_our_lane(v, frame);
    let p = v.own_packet(frame);
    assert forall|k: int| 0 <= k < own.len() implies {
        &&& (#[trigger] out[k]).dest == out_dests[k]
        &&& out[k].bytes@ == p.wire()
        &&& v.n_out <= 255 ==> reading(out[k].bytes@) == Some(p)
    } by {
        assert((own + mail)[k] == own[k]);
        assert(carries(out[k], out_dests[k], p));
        if v.n_out <= 255 {
            assert(p.samples.len() == p.frames * p.channels);
            carried_packet_arrives(out[k], out_dests[k], p);
        }
    }
    assert forall|k: int| own.len() <= k < out.len() implies exists|i: int|
        {
            &&& 0 <= i < v.members.len()
            &&& (#[trigger] v.members[i]).in_width > 0
            &&& (#[trigger] out[k]).dest == (Addr { ip: v.members[i].ip, port: in_port })
            &&& out[k].bytes@ == v.packet_for(i, frame).wire()
        } by {
        let j = k - own.len();
        assert((own + mail)[k] == mail[j]);
        mail_is_somebodys(v, frame, in_port, v.members.len(), j);
        let i = choose|i: int|
            0 <= i < v.members.len() && (#[trigger] v.members[i]).in_width > 0 && mail[j] == (
                Addr { ip: v.members[i].ip, port: in_port },
                v.packet_for(i, frame),
            );
        assert(carries(out[k], mail[j].0, mail[j].1));
        assert(v.members[i].in_width > 0);
    }
}

/// Whoever has been sent a packet gets the next number, round the wrap, and so do
/// our outputs where we have any; nothing else changes.
pub proof fn sending_counts_on(v: HubView, i: int)
    requires
        0 <= i < v.members.len(),
    ensures
        v.mailed().out_seq == if v.n_out > 0 {
            (v.out_seq + 1) % 0x1_0000_0000
        } else {
            v.out_seq as int
        },
        v.mailed().members.len() == v.members.len(),
        v.mailed().members[i] == (LaneMemberView {
            in_seq: v.mailed().members[i].in_seq,
            ..v.members[i]
        }),
        v.mailed().members[i].in_seq == if v.members[i].in_width > 0 {
            (v.members[i].in_seq + 1) % 0x1_0000_0000
        } else {
            v.members[i].in_seq as int
        },
        v.mailed().chans == v.chans,
        v.mailed().n_out == v.n_out && v.mailed().n_in == v.n_in,
{
}

/// What placing a playout's next block in a lane does to a frame of the device.
proof fn place_play_at(
    frame: Seq<u32>,
    channels: int,
    play: PlayoutView,
    offset: int,
    width: int,
    f: int,
    c: int,
)
    requires
        0 <= f < 64,
        0 <= c < channels,
        frame.len() == 64 * channels,
        0 <= offset,
        0 <= width,
        offset + width <= channels,
    ensures
        place_play(frame, channels, play, offset, width).len() == frame.len(),
        place_play(frame, channels, play, offset, width)[f * channels + c] == if play.can_play()
            && offset <= c < offset + width && f * width + (c - offset)
            < play.next_block().0.len() {
            play.next_block().0[f * width + (c - offset)]
        } else {
            frame[f * channels + c]
        },
{
    whole_frames(channels);
    placed_block_stands_in_its_lane(frame, channels, offset, width, play.next_block().0);
}

/// A channel is in the lane that a member plays out on.
pub open spec fn plays_on(m: LaneMemberView, c: int) -> bool {
    m.out_play.can_play() && m.out_lane <= c < m.out_lane + m.out_width
}

proof fn silent_channel(v: HubView, n: nat, f: int, c: int)
    requires
        v.valid(),
        n <= v.members.len(),
        0 <= f < 64,
        0 <= c < v.chans.channels,
        forall|k: int| 0 <= k < n ==> !plays_on(#[trigger] v.members[k], c),
    ensures
        member_frame(v.members, v.chans.channels as int, n).len() == 64 * v.chans.channels,
        member_frame(v.members, v.chans.channels as int, n)[f * v.chans.channels + c] == 0,
    decreases n,
{
    let ch = v.chans.channels as int;
    cell_position(f, c, ch, 64);
    if n > 0 {
        let m = v.members[n - 1];
        assert(v.lanes_inside(m));
        silent_channel(v, (n - 1) as nat, f, c);
        let front = member_frame(v.members, ch, (n - 1) as nat);
        assert(!plays_on(m, c));
        place_play_at(front, ch, m.out_play, m.out_lane as int, m.out_width as int, f, c);
    }
}

proof fn sounding_channel(v: HubView, n: nat, i: int, f: int, c: int)
    requires
        v.valid(),
        0 <= i < n <= v.members.len(),
        0 <= f < 64,
        0 <= c < v.chans.channels,
        plays_on(v.members[i], c),
    ensures
        ({
            let ch = v.chans.channels as int;
            let m = v.members[i];
            let b = m.out_play.next_block().0;
            let at = f * m.out_width + (c - m.out_lane);
            let frame = member_frame(v.members, ch, n);
            &&& frame.len() == 64 * ch
            &&& frame[f * ch + c] == if at < b.len() {
                b[at]
            } else {
                0
            }
        }),
    decreases n,
{
    let ch = v.chans.channels as int;
    let last = v.members[n - 1];
    let front = member_frame(v.members, ch, (n - 1) as nat);
    assert(v.lanes_inside(last));
    assert(v.lanes_inside(v.members[i]));
    cell_position(f, c, ch, 64);
    if i == n - 1 {
        assert forall|k: int| 0 <= k < n - 1 implies !plays_on(#[trigger] v.members[k], c) by {
            assert(separate(v.members[k], v.members[i]));
        }
        silent_channel(v, (n - 1) as nat, f, c);
    } else {
        sounding_channel(v, (n - 1) as nat, i, f, c);
        assert(separate(v.members[i], last));
    }
    place_play_at(front, ch, last.out_play, last.out_lane as int, last.out_width as int, f, c);
}

/// What the members play out, as it stands in a frame for the device: channel `c` of
/// the lane of a member that has a block holds channel `c` of the block, frame by
/// frame, and silence where the block is too short; every channel that is in no
/// such lane is silent.
pub proof fn members_play_out_on_their_lanes(v: HubView, f: int, c: int)
    requires
        v.valid(),
        0 <= f < 64,
        0 <= c < v.chans.channels,
    ensures
        ({
            let ch = v.chans.channels as int;
            let frame = member_frame(v.members, ch, v.members.len());
            &&& frame.len() == 64 * ch
            &&& forall|i: int|
                0 <= i < v.members.len() && plays_on(#[trigger] v.members[i], c) ==> {
                    let m = v.members[i];
                    let b = m.out_play.next_block().0;
                    let at = f * m.out_width + (c - m.out_lane);
                    frame[f * ch + c] == if at < b.len() {
                        b[at]
                    } else {
                        0
                    }
                }
            &&& (forall|i: int|
                0 <= i < v.members.len() ==> !plays_on(#[trigger] v.members[i], c))
                ==> frame[f * ch + c] == 0
        }),
{
    let ch = v.chans.channels as int;
    let n = v.members.len();
    if forall|i: int| 0 <= i < n ==> !plays_on(#[trigger] v.members[i], c) {
        silent_channel(v, n, f, c);
    }
    assert forall|i: int| 0 <= i < n && plays_on(#[trigger] v.members[i], c) implies {
        let m = v.members[i];
        let b = m.out_play.next_block().0;
        let at = f * m.out_width + (c - m.out_lane);
        member_frame(v.members, ch, n)[f * ch + c] == if at < b.len() {
            b[at]
        } else {
            0
        }
    } by {
        sounding_channel(v, n, i, f, c);
    }
    if exists|i: int| 0 <= i < n && plays_on(#[trigger] v.members[i], c) {
        let i = choose|i: int| 0 <= i < n && plays_on(#[trigger] v.members[i], c);
        sounding_channel(v, n, i, f, c);
    }
}

/// What the members play into our input `c` in frame `f`, one after the other.
pub open spec fn returns_at(members: Seq<LaneMemberView>, f: int, c: int) -> Seq<u32> {
    Seq::new(
        members.len(),
        |i: int|
            {
                let play = members[i].return_play;
                if play.can_play() && c < play.next_block().1 {
                    seq![play.next_block().0[f * play.next_block().1 + c]]
                } else {
                    Seq::<u32>::empty()
                }
            },
    ).flatten()
}

proof fn straight_pair(n: u16, take: nat, w: int, o: int)
    requires
        take <= n,
        0 <= o < n,
    ensures
        straight_through(n).take(take as int).filter(|p: (u16, u16)| p.1 == o && p.0 < w) == if o
            < w && o < take {
            seq![(o as u16, o as u16)]
        } else {
            Seq::<(u16, u16)>::empty()
        },
    decreases take,
{
    reveal(Seq::filter);
    let pairs = straight_through(n);
    let leads = |p: (u16, u16)| p.1 == o && p.0 < w;
    if take > 0 {
        straight_pair(n, (take - 1) as nat, w, o);
        let now = pairs.take(take as int);
        assert(now.drop_last() =~= pairs.take(take - 1));
        assert(now.last() == ((take - 1) as u16, (take - 1) as u16));
        if o == take - 1 && o < w {
            assert(now.filter(leads) =~= seq![(o as u16, o as u16)]);
        }
    } else {
        assert(pairs.take(0) =~= Seq::empty());
        assert(pairs.take(0).filter(leads) =~= Seq::empty());
    }
}

proof fn straight_returns(members: Seq<LaneMemberView>, n: u16, f: int, o: int)
    requires
        0 <= o < n,
    ensures
        ({
            let plays = return_plays(members);
            let pairs = straight_through(n);
            Seq::new(
                plays.len(),
                |i: int|
                    if plays[i].can_play() {
                        pairs.filter(
                            |p: (u16, u16)| p.1 == o && p.0 < plays[i].next_block().1,
                        ).map_values(
                            |p: (u16, u16)|
                                plays[i].next_block().0[f * plays[i].next_block().1 + p.0],
                        )
                    } else {
                        Seq::<u32>::empty()
                    },
            ).flatten() == returns_at(members, f, o)
        }),
{
    let plays = return_plays(members);
    let pairs = straight_through(n);
    let routed = Seq::new(
        plays.len(),
        |i: int|
            if plays[i].can_play() {
                pairs.filter(
                    |p: (u16, u16)| p.1 == o && p.0 < plays[i].next_block().1,
                ).map_values(
                    |p: (u16, u16)| plays[i].next_block().0[f * plays[i].next_block().1 + p.0],
                )
            } else {
                Seq::<u32>::empty()
            },
    );
    let plain = Seq::new(
        members.len(),
        |i: int|
            {
                let play = members[i].return_play;
                if play.can_play() && o < play.next_block().1 {
                    seq![play.next_block().0[f * play.next_block().1 + o]]
                } else {
                    Seq::<u32>::empty()
                }
            },
    );
    assert forall|i: int| 0 <= i < plays.len() implies #[trigger] routed[i] == plain[i] by {
        if plays[i].can_play() {
            let w = plays[i].next_block().1 as int;
            straight_pair(n, n as nat, w, o);
            assert(pairs.take(n as int) =~= pairs);
            let leads = |p: (u16, u16)| p.1 == o && p.0 < w;
            let leads_here = |p: (u16, u16)| p.1 == o && p.0 < plays[i].next_block().1;
            assert(leads =~= leads_here);
            assert(routed[i] =~= plain[i]);
        }
    }
    assert(routed =~= plain);
}

/// A frame for the device in full, where our inputs are laid out in front. Channel
/// `c` of our inputs is the sum, on top of silence, of what every member that has a
/// block for us plays into input `c`; every other channel is what the member whose
/// lane it is in plays out, or silence. Whoever had a block has moved on by one, on
/// the way in only where we have inputs, and nothing else of a member has changed.
pub proof fn device_hears_everybody<'a, F: Fn(u32, u32) -> u32>(
    mix: HubMix<'a, F>,
    sum: spec_fn(u32, u32) -> u32,
    v: HubView,
    block: Seq<u32>,
    after: Seq<LaneMemberView>,
    f: int,
    c: int,
)
    requires
        v.valid(),
        mix.channels == v.chans.channels,
        mix.n_in == v.n_in,
        mix.my_in == if v.n_in > 0 {
            Some(0usize)
        } else {
            None
        },
        mix.pairs@ == straight_through(v.n_in as u16),
        forall|a: u32, b: u32, s: u32| #[trigger]
            call_ensures(*mix.plus, (a, b), s) ==> s == sum(a, b),
        mix.yields(v.members, YieldView::Block(block), after),
        0 <= f < 64,
        0 <= c < v.chans.channels,
    ensures
        ({
            let ch = v.chans.channels as int;
            let base = member_frame(v.members, ch, v.members.len());
            &&& block.len() == 64 * ch
            &&& block[f * ch + c] == if c < v.n_in {
                returns_at(v.members, f, c).fold_left(0u32, sum)
            } else {
                base[f * ch + c]
            }
            &&& exists|i: int|
                0 <= i < v.members.len() && ((#[trigger] v.members[i]).out_play.can_play() || (
                v.n_in > 0 && v.members[i].return_play.can_play()))
        }),
        after.len() == v.members.len(),
        forall|i: int|
            0 <= i < after.len() ==> {
                let m = v.members[i];
                &&& (#[trigger] after[i]).out_play == if m.out_play.can_play() {
                    m.out_play.played()
                } else {
                    m.out_play
                }
                &&& after[i].return_play == if v.n_in > 0 && m.return_play.can_play() {
                    m.return_play.played()
                } else {
                    m.return_play
                }
                &&& after[i] == (LaneMemberView {
                    out_play: after[i].out_play,
                    return_play: after[i].return_play,
                    ..m
                })
            },
{
    reveal(Seq::fold_left);
    let ch = v.chans.channels as int;
    let n = v.n_in as int;
    let base = member_frame(v.members, ch, v.members.len());
    let plays = return_plays(v.members);
    members_play_out_on_their_lanes(v, f, c);
    cell_position(f, c, ch, 64);
    assert forall|i: int| 0 <= i < v.members.len() && c < n implies !plays_on(
        #[trigger] v.members[i],
        c,
    ) by {
        assert(v.lanes_inside(v.members[i]));
    }
    if any_plays(out_plays(v.members)) {
        let k = choose|k: int|
            0 <= k < v.members.len() && (#[trigger] out_plays(v.members)[k]).can_play();
        assert(v.members[k].out_play.can_play());
    } else {
        let k = choose|k: int| 0 <= k < plays.len() && (#[trigger] plays[k]).can_play();
        assert(v.members[k].return_play.can_play());
    }
    if mix.my_in is Some && any_plays(plays) {
        let total = choose|total: Seq<u32>| #[trigger]
            is_mix(*mix.plus, plays, mix.pairs@, n, total) && block == placed(
                base,
                ch,
                0,
                n,
                total,
                total.len(),
            );
        whole_frames(ch);
        assert(total.len() == 64 * n);
        assert(lane_len(base.len(), ch, n, total.len()) == total.len());
        placed_block_stands_in_its_lane(base, ch, 0, n, total);
        if c < n {
            mix_is_the_sum_of_what_everybody_plays(
                *mix.plus,
                sum,
                plays,
                mix.pairs@,
                n,
                total,
                f,
                c,
            );
            straight_returns(v.members, n as u16, f, c);
            cell_position(f, c, n, 64);
        }
    } else if c < n {
        assert forall|i: int| 0 <= i < plays.len() implies !(
        #[trigger] v.members[i]).return_play.can_play() by {
            assert(!plays[i].can_play());
        }
        no_returns(v.members, f, c);
    }
    assert(after.len() == v.members.len());
}

proof fn no_returns(members: Seq<LaneMemberView>, f: int, c: int)
    requires
        forall|i: int| 0 <= i < members.len() ==> !(#[trigger] members[i]).return_play.can_play(),
    ensures
        returns_at(members, f, c) == Seq::<u32>::empty(),
{
    let parts = Seq::new(
        members.len(),
        |i: int|
            {
                let play = members[i].return_play;
                if play.can_play() && c < play.next_block().1 {
                    seq![play.next_block().0[f * play.next_block().1 + c]]
                } else {
                    Seq::<u32>::empty()
                }
            },
    );
    assert(returns_at(members, f, c) == parts.flatten());
    assert forall|i: int| 0 <= i < parts.len() implies #[trigger] parts[i] == Seq::<
        u32,
    >::empty() by {
        assert(!members[i].return_play.can_play());
    }
    flat_nothing(parts);
}

proof fn flat_nothing(parts: Seq<Seq<u32>>)
    requires
        forall|i: int| 0 <= i < parts.len() ==> #[trigger] parts[i] == Seq::<u32>::empty(),
    ensures
        parts.flatten() == Seq::<u32>::empty(),
    decreases parts.len(),
{
    if parts.len() > 0 {
        let rest = parts.drop_first();
        assert forall|i: int| 0 <= i < rest.len() implies #[trigger] rest[i] == Seq::<
            u32,
        >::empty() by {
            assert(rest[i] == parts[i + 1]);
        }
        flat_nothing(rest);
        assert(parts.flatten() =~= Seq::empty());
    }
}

/// Nothing comes for the device where nobody plays, and the members are left as
/// they are; nor where we have inputs and a member's block is too short to be
/// mixed into them.
pub proof fn silent_round_changes_nothing<'a, F: Fn(u32, u32) -> u32>(
    mix: HubMix<'a, F>,
    before: Seq<LaneMemberView>,
    after: Seq<LaneMemberView>,
)
    ensures
        mix.yields(before, YieldView::Dry, after) ==> after == before && forall|i: int|
            0 <= i < before.len() ==> !(#[trigger] before[i]).out_play.can_play() && (
            mix.my_in is Some ==> !before[i].return_play.can_play()),
        mix.yields(before, YieldView::Broken, after) ==> after == before && mix.my_in is Some
            && exists|i: int|
            0 <= i < before.len() && !mixable(
                (#[trigger] before[i]).return_play,
                mix.pairs@,
                mix.n_in as int,
            ),
{
    if mix.yields(before, YieldView::Dry, after) {
        assert forall|i: int| 0 <= i < before.len() implies !(
        #[trigger] before[i]).out_play.can_play() && (mix.my_in is Some
            ==> !before[i].return_play.can_play()) by {
            assert(!out_plays(before)[i].can_play());
            if mix.my_in is Some {
                assert(!return_plays(before)[i].can_play());
            }
        }
    }
    if mix.yields(before, YieldView::Broken, after) {
        let plays = return_plays(before);
        let i = choose|i: int|
            0 <= i < plays.len() && !mixable(#[trigger] plays[i], mix.pairs@, mix.n_in as int);
        assert(plays[i] == before[i].return_play);
    }
}

/// A member is there as long as it was heard less than five seconds ago, and whoever
/// keeps silent for longer is forgotten.
pub proof fn silence_of_five_seconds_is_the_end(m: LaneMemberView, now: u128)
    ensures
        m.is_live(now) <==> now < m.last_seen + 5_000_000_000,
{
}

/// An advertisement that does not concern us changes nothing.
pub proof fn foreign_advertisement_is_ignored(
    v: HubView,
    ad: AdvertisementView,
    src_ip: Ip,
    prime: nat,
    now: u128,
)
    ensures
        v.heard(ad, src_ip, false, prime, now) == (v, LaneVerdict::Ignored),
{
}

/// A member that is heard again in the same run is only noted as there; one that
/// comes in another run keeps its address and its lanes, and starts over in all
/// else: an empty cushion both ways, packets numbered from zero. No other member is
/// touched, and no channel is given away.
pub proof fn known_member_keeps_its_lanes(
    v: HubView,
    ad: AdvertisementView,
    prime: nat,
    now: u128,
    i: int,
)
    requires
        v.valid(),
        0 <= i < v.members.len(),
    ensures
        ({
            let m = v.members[i];
            let (w, verdict) = v.heard(ad, m.ip, true, prime, now);
            let n = w.members[i];
            &&& w == (HubView { members: w.members, ..v })
            &&& w.members.len() == v.members.len()
            &&& forall|k: int|
                0 <= k < v.members.len() && k != i ==> (#[trigger] w.members[k]) == v.members[k]
            &&& n.last_seen == now
            &&& verdict is Refreshed <==> m.node_id == ad.node_id
            &&& verdict is Restarted <==> m.node_id != ad.node_id
            &&& m.node_id == ad.node_id ==> n == (LaneMemberView { last_seen: now, ..m })
            &&& m.node_id != ad.node_id ==> {
                &&& n.ip == m.ip
                &&& n.out_lane == m.out_lane && n.out_width == m.out_width
                &&& n.in_lane == m.in_lane && n.in_width == m.in_width
                &&& n.node_id == ad.node_id
                &&& n.device_name == ad.device_name
                &&& n.in_seq == 0
                &&& n.out_play == PlayoutView::fresh(prime)
                &&& n.return_play == PlayoutView::fresh(prime)
            }
        }),
{
    let ip = v.members[i].ip;
    lane_seat_is_the_last_of_its_address(v.members, ip);
    let s = lane_seat(v.members, ip)->0;
    if s > i {
        assert(separate(v.members[i], v.members[s]));
    }
}

/// A stranger that concerns us joins exactly where it shares something and there
/// are channels left on both sides for what it shares. It then gets the next
/// channels of each side, as many as it has outputs and inputs, and these are taken
/// from then on; those that were there before stay as they are.
pub proof fn stranger_gets_the_next_lanes(
    v: HubView,
    ad: AdvertisementView,
    src_ip: Ip,
    prime: nat,
    now: u128,
)
    requires
        v.valid(),
        forall|k: int| 0 <= k < v.members.len() ==> (#[trigger] v.members[k]).ip != src_ip,
    ensures
        ({
            let (w, verdict) = v.heard(ad, src_ip, true, prime, now);
            let n_out = ad.outputs.len();
            let n_in = ad.inputs.len();
            let record = n_out == 0 || v.chans.write_next + n_out <= v.chans.split;
            let playback = n_in == 0 || v.chans.read_next + n_in <= v.chans.channels;
            &&& verdict is Ignored <==> n_out == 0 && n_in == 0
            &&& verdict is NoRecordLane <==> !record
            &&& verdict is NoPlaybackLane <==> record && !playback
            &&& verdict is Joined <==> n_out + n_in > 0 && record && playback
            &&& verdict matches LaneVerdict::NoRecordLane(e) ==> e == (LaneError::Record {
                need: n_out as usize,
                past: v.chans.write_next as usize,
                split: v.chans.split as usize,
            })
            &&& verdict matches LaneVerdict::NoPlaybackLane(e) ==> e == (LaneError::Playback {
                need: n_in as usize,
                past: v.chans.read_next as usize,
                split: v.chans.split as usize,
                channels: v.chans.channels as usize,
            })
            &&& w.n_out == v.n_out && w.n_in == v.n_in && w.out_seq == v.out_seq
            &&& w.chans.channels == v.chans.channels && w.chans.split == v.chans.split
            &&& w.chans.write_next == if record {
                v.chans.write_next + n_out
            } else {
                v.chans.write_next
            }
            &&& w.chans.read_next == if verdict is Joined {
                v.chans.read_next + n_in
            } else {
                v.chans.read_next
            }
            &&& !(verdict is Joined) ==> w.members == v.members
            &&& verdict is Joined ==> {
                let m = w.members.last();
                &&& w.members.drop_last() == v.members
                &&& w.members.len() == v.members.len() + 1
                &&& m.ip == src_ip
                &&& m.node_id == ad.node_id
                &&& m.device_name == ad.device_name
                &&& m.out_width == n_out && m.in_width == n_in
                &&& n_out > 0 ==> m.out_lane == v.chans.write_next
                &&& n_in > 0 ==> m.in_lane == v.chans.read_next
                &&& m.in_seq == 0
                &&& m.last_seen == now
                &&& m.out_play == PlayoutView::fresh(prime)
                &&& m.return_play == PlayoutView::fresh(prime)
            }
        }),
{
    lane_seat_is_the_last_of_its_address(v.members, src_ip);
    let (w, verdict) = v.heard(ad, src_ip, true, prime, now);
    if verdict is Joined {
        assert(w.members.drop_last() =~= v.members);
    }
}

/// A member that is changed is changed alone.
pub proof fn one_member_changes(v: HubView, i: int, m: LaneMemberView)
    requires
        0 <= i < v.members.len(),
    ensures
        v.with_member(i, m).members.len() == v.members.len(),
        v.with_member(i, m).members[i] == m,
        forall|k: int|
            0 <= k < v.members.len() && k != i ==> (#[trigger] v.with_member(i, m).members[k])
                == v.members[k],
        v.with_member(i, m) == (HubView { members: v.with_member(i, m).members, ..v }),
{
}

/// Our own channels in a group that is in order: our inputs are the first record
/// channels and our outputs the first playback channels, where we have any, and
/// what is played into input `k` comes out on input `k`.
pub proof fn own_channels_come_first(h: HubState)
    requires
        h.wf(),
    ensures
        h.my_in == if h.n_in > 0 {
            Some(0usize)
        } else {
            None
        },
        h.my_out is Some <==> h.n_out > 0,
        h.my_out matches Some(off) ==> off == h.chans@.split,
        h.n_in <= h.chans@.split && h.chans@.split + h.n_out <= h.channels,
        h.pairs@.len() == h.n_in,
        forall|k: int| 0 <= k < h.n_in ==> #[trigger] h.pairs@[k] == (k as u16, k as u16),
{
}

} // verus!
