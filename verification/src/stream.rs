//! Point-to-point streaming: each peer gets the local inputs that are routed to
//! it, and what peers send is summed onto the local outputs.

use vstd::prelude::*;
use crate::config::{Addr, Audio, Config, Ip, Peer};
use crate::jitter::{
    draining_moves_one_place, filled_counts_the_places_taken, packet_ahead_takes_its_place,
    successor, JitterBuffer, JitterView,
};
use crate::layout::{cell, cell_position};
use crate::packet::{decode_inverts_encode, reading, AudioPacket, PacketView};
use crate::text::{decimal, push_decimal, same_text};
use crate::transport::{
    addends, addends_are_the_routed_samples, adding_up_is_a_fold, all_below, block_holds_channels,
    block_takes_routes, captured_packet, captured_packet_holds_the_chosen_inputs,
    carried_packet_arrives, carries, covers, coverage_is_every_routed_sample, ingest,
    packet_covers, packetize, packetized_is_complete, peers_sum_on_an_output, rate_for_header,
    routes, sum_into_output, sums_to, sums_to_nothing, Datagram,
};

verus! {

/// Number of audio frames packed into each UDP packet.
/// 64 frames @ 48 kHz = ~1.33 ms per packet.
pub const FRAMES_PER_PACKET: u8 = 64;

/// The devices to open. `None` stands for the system's default.
pub struct DevicePlan {
    pub input: Option<String>,
    pub output: Option<String>,
    /// One device serves both directions: it is looked up once, since a second
    /// lookup would find it busy.
    pub shared: bool,
}

/// What an optional text holds.
pub open spec fn text_view(s: Option<String>) -> Option<Seq<char>> {
    match s {
        Some(s) => Some(s@),
        None => None,
    }
}

/// The first of two settings that is there.
pub open spec fn preferred<T>(flag: Option<T>, configured: Option<T>) -> Option<T> {
    match flag {
        Some(v) => Some(v),
        None => configured,
    }
}

fn pick_name(flag: Option<String>, configured: &Option<String>) -> (r: Option<String>)
    ensures
        text_view(r) == preferred(text_view(flag), text_view(*configured)),
{
    match flag {
        Some(s) => Some(s),
        None => match configured {
            Some(s) => Some(s.clone()),
            None => None,
        },
    }
}

/// Whether two device names are given and are the same.
pub fn same_device(input: &Option<String>, output: &Option<String>) -> (r: bool)
    ensures
        r == (input is Some && text_view(*input) == text_view(*output)),
{
    match (input, output) {
        (Some(i), Some(o)) => same_text(i.as_str(), o.as_str()),
        _ => false,
    }
}

/// Picks the devices. Precedence: CLI flag > configuration > system default.
pub fn plan_devices(
    input_device: Option<String>,
    output_device: Option<String>,
    audio: &Audio,
) -> (plan: DevicePlan)
    ensures
        text_view(plan.input) == preferred(text_view(input_device), text_view(audio.input_device)),
        text_view(plan.output) == preferred(
            text_view(output_device),
            text_view(audio.output_device),
        ),
        plan.shared == (plan.input is Some && text_view(plan.input) == text_view(plan.output)),
{
    let input = pick_name(input_device, &audio.input_device);
    let output = pick_name(output_device, &audio.output_device);
    let shared = same_device(&input, &output);
    DevicePlan { input, output, shared }
}

/// A channel count that is pinned by a flag or by configuration. `None` means
/// that the device is to be asked for its maximum.
pub fn pinned_channels(flag: Option<u16>, configured: Option<u16>) -> (r: Option<u16>)
    ensures
        r == preferred(flag, configured),
{
    match flag {
        Some(c) => Some(c),
        None => configured,
    }
}

/// A resolved per-peer audio route.
pub struct Route {
    pub name: String,
    /// Where to send our audio: the peer's address and the stream port.
    pub dest: Addr,
    /// Source address used to match incoming packets to this peer.
    pub ip: Ip,
    /// Local input channels to transmit, in order.
    pub send: Vec<u16>,
    /// (incoming packet channel, local output channel)
    pub recv: Vec<(u16, u16)>,
}

/// What a [`Route`] holds.
pub struct RouteView {
    pub name: Seq<char>,
    pub dest: Addr,
    pub ip: Ip,
    pub send: Seq<u16>,
    pub recv: Seq<(u16, u16)>,
}

impl View for Route {
    type V = RouteView;

    open spec fn view(&self) -> RouteView {
        RouteView {
            name: self.name@,
            dest: self.dest,
            ip: self.ip,
            send: self.send@,
            recv: self.recv@,
        }
    }
}

/// The views of a list of routes.
pub open spec fn route_views(routes: Seq<Route>) -> Seq<RouteView> {
    routes.map_values(|r: Route| r@)
}

/// All channels below `n`, in order.
pub open spec fn all_channels(n: u16) -> Seq<u16> {
    Seq::new(n as nat, |i: int| i as u16)
}

/// Every channel below `n` to the channel of the same number.
pub open spec fn straight_through(n: u16) -> Seq<(u16, u16)> {
    Seq::new(n as nat, |i: int| (i as u16, i as u16))
}

/// The route of a peer: what its configuration says, every input channel where
/// it does not say what to send, and channel by channel where it does not say
/// where to.
pub open spec fn route_of(p: Peer, stream_port: u16, in_channels: u16, out_channels: u16) -> RouteView {
    RouteView {
        name: p.name@,
        dest: Addr { ip: p.addr.ip, port: stream_port },
        ip: p.addr.ip,
        send: match p.send {
            Some(s) => s@,
            None => all_channels(in_channels),
        },
        recv: match p.recv {
            Some(r) => r@,
            None => straight_through(out_channels),
        },
    }
}

pub(crate) fn copied<T: Copy>(items: &[T]) -> (v: Vec<T>)
    ensures
        v@ == items@,
{
    let mut v: Vec<T> = Vec::new();
    let mut i: usize = 0;
    while i < items.len()
        invariant
            i <= items@.len(),
            v@ =~= items@.take(i as int),
        decreases items.len() - i,
    {
        v.push(items[i]);
        i = i + 1;
    }
    assert(items@.take(i as int) =~= items@);
    v
}

fn list_channels(n: u16) -> (v: Vec<u16>)
    ensures
        v@ == all_channels(n),
{
    let mut v: Vec<u16> = Vec::new();
    let mut i: u16 = 0;
    while i < n
        invariant
            i <= n,
            v@ =~= all_channels(i),
        decreases n - i,
    {
        v.push(i);
        i = i + 1;
    }
    v
}

pub(crate) fn pair_channels(n: u16) -> (v: Vec<(u16, u16)>)
    ensures
        v@ == straight_through(n),
{
    let mut v: Vec<(u16, u16)> = Vec::new();
    let mut i: u16 = 0;
    while i < n
        invariant
            i <= n,
            v@ =~= straight_through(i),
        decreases n - i,
    {
        v.push((i, i));
        i = i + 1;
    }
    v
}

fn resolve_route(p: &Peer, stream_port: u16, in_channels: u16, out_channels: u16) -> (r: Route)
    ensures
        r@ == route_of(*p, stream_port, in_channels, out_channels),
{
    let send: Vec<u16> = match &p.send {
        Some(s) => copied(s.as_slice()),
        None => list_channels(in_channels),
    };
    let recv: Vec<(u16, u16)> = match &p.recv {
        Some(r) => copied(r.as_slice()),
        None => pair_channels(out_channels),
    };
    Route {
        name: p.name.clone(),
        dest: Addr { ip: p.addr.ip, port: stream_port },
        ip: p.addr.ip,
        send,
        recv,
    }
}

/// The routes of all peers, in the order of the configuration.
pub fn resolve_routes(cfg: &Config, in_channels: u16, out_channels: u16) -> (r: Vec<Route>)
    ensures
        r@.len() == cfg.peers@.len(),
        forall|i: int|
            0 <= i < r@.len() ==> (#[trigger] r@[i])@ == route_of(
                cfg.peers@[i],
                cfg.stream_port,
                in_channels,
                out_channels,
            ),
{
    let mut r: Vec<Route> = Vec::new();
    let mut i: usize = 0;
    while i < cfg.peers.len()
        invariant
            i <= cfg.peers@.len(),
            r@.len() == i,
            forall|k: int|
                0 <= k < i ==> (#[trigger] r@[k])@ == route_of(
                    cfg.peers@[k],
                    cfg.stream_port,
                    in_channels,
                    out_channels,
                ),
        decreases cfg.peers.len() - i,
    {
        r.push(resolve_route(&cfg.peers[i], cfg.stream_port, in_channels, out_channels));
        i = i + 1;
    }
    r
}

/// A route names a channel that the local device does not have.
pub enum RouteError {
    /// The peer is to be sent an input channel past the last one.
    Send { peer: String, channel: u16, in_channels: u16 },
    /// The peer is to be heard on an output channel past the last one.
    Output { peer: String, channel: u16, out_channels: u16 },
}

impl RouteError {
    /// The error in words.
    pub open spec fn text(self) -> Seq<char> {
        match self {
            RouteError::Send { peer, channel, in_channels } => {
                "peer '"@ + peer@ + "': send channel "@ + decimal(channel as nat)
                    + " exceeds input channels ("@ + decimal(in_channels as nat) + ")"@
            },
            RouteError::Output { peer, channel, out_channels } => {
                "peer '"@ + peer@ + "': output channel "@ + decimal(channel as nat)
                    + " exceeds output channels ("@ + decimal(out_channels as nat) + ")"@
            },
        }
    }

    /// The error in words.
    pub fn message(&self) -> (s: String)
        ensures
            s@ == self.text(),
    {
        let mut s = String::new();
        s.append("peer '");
        match self {
            RouteError::Send { peer, channel, in_channels } => {
                s.append(peer.as_str());
                s.append("': send channel ");
                push_decimal(&mut s, *channel as u64);
                s.append(" exceeds input channels (");
                push_decimal(&mut s, *in_channels as u64);
            },
            RouteError::Output { peer, channel, out_channels } => {
                s.append(peer.as_str());
                s.append("': output channel ");
                push_decimal(&mut s, *channel as u64);
                s.append(" exceeds output channels (");
                push_decimal(&mut s, *out_channels as u64);
            },
        }
        s.append(")");
        assert(s@ =~= self.text());
        s
    }
}

/// `c` is the first of `channels` that is not below `limit`.
pub open spec fn is_first_past(channels: Seq<u16>, limit: u16, c: u16) -> bool {
    exists|k: int|
        {
            &&& 0 <= k < channels.len()
            &&& #[trigger] channels[k] == c
            &&& c >= limit
            &&& all_below(channels.take(k), limit)
        }
}

impl RouteView {
    /// The local outputs that the route plays on.
    pub open spec fn outputs(self) -> Seq<u16> {
        self.recv.map_values(|p: (u16, u16)| p.1)
    }

    /// The route names channels of the local device only.
    pub open spec fn fits(self, in_channels: u16, out_channels: u16) -> bool {
        all_below(self.send, in_channels) && all_below(self.outputs(), out_channels)
    }

    /// `e` is what is wrong with the route: its first channel that the device
    /// does not have, those to send before those to play.
    pub open spec fn is_fault(self, in_channels: u16, out_channels: u16, e: RouteError) -> bool {
        match e {
            RouteError::Send { peer, channel, in_channels: limit } => {
                &&& peer@ == self.name
                &&& limit == in_channels
                &&& is_first_past(self.send, in_channels, channel)
            },
            RouteError::Output { peer, channel, out_channels: limit } => {
                &&& peer@ == self.name
                &&& limit == out_channels
                &&& all_below(self.send, in_channels)
                &&& is_first_past(self.outputs(), out_channels, channel)
            },
        }
    }
}

/// `e` is what is wrong with the first route that does not fit.
pub open spec fn is_first_fault(
    routes: Seq<RouteView>,
    in_channels: u16,
    out_channels: u16,
    e: RouteError,
) -> bool {
    exists|i: int|
        {
            &&& 0 <= i < routes.len()
            &&& (#[trigger] routes[i]).is_fault(in_channels, out_channels, e)
            &&& forall|k: int| 0 <= k < i ==> (#[trigger] routes[k]).fits(in_channels, out_channels)
        }
}

/// All routes fit the local device.
pub open spec fn all_fit(routes: Seq<RouteView>, in_channels: u16, out_channels: u16) -> bool {
    forall|i: int| 0 <= i < routes.len() ==> (#[trigger] routes[i]).fits(in_channels, out_channels)
}

fn check_route(r: &Route, in_channels: u16, out_channels: u16) -> (v: Result<(), RouteError>)
    ensures
        match v {
            Ok(_) => r@.fits(in_channels, out_channels),
            Err(e) => r@.is_fault(in_channels, out_channels, e),
        },
{
    let mut i: usize = 0;
    while i < r.send.len()
        invariant
            i <= r.send@.len(),
            all_below(r@.send.take(i as int), in_channels),
        decreases r.send.len() - i,
    {
        let channel: u16 = r.send[i];
        if channel >= in_channels {
            assert(r@.send[i as int] == channel);
            return Err(RouteError::Send { peer: r.name.clone(), channel, in_channels });
        }
        proof {
            let next = r@.send.take(i + 1);
            assert forall|k: int| 0 <= k < next.len() implies (#[trigger] next[k])
                < in_channels by {
                if k < i {
                    assert(next[k] == r@.send.take(i as int)[k]);
                }
            }
        }
        i = i + 1;
    }
    assert(r@.send.take(i as int) =~= r@.send);
    let mut j: usize = 0;
    while j < r.recv.len()
        invariant
            j <= r.recv@.len(),
            all_below(r@.send, in_channels),
            all_below(r@.outputs().take(j as int), out_channels),
        decreases r.recv.len() - j,
    {
        let (_, channel) = r.recv[j];
        assert(r@.outputs()[j as int] == channel);
        if channel >= out_channels {
            return Err(RouteError::Output { peer: r.name.clone(), channel, out_channels });
        }
        proof {
            let next = r@.outputs().take(j + 1);
            assert forall|k: int| 0 <= k < next.len() implies (#[trigger] next[k])
                < out_channels by {
                if k < j {
                    assert(next[k] == r@.outputs().take(j as int)[k]);
                }
            }
        }
        j = j + 1;
    }
    assert(r@.outputs().take(j as int) =~= r@.outputs());
    Ok(())
}

/// Holds the routes' channels against the local device.
pub fn validate_routes(routes: &Vec<Route>, in_channels: u16, out_channels: u16) -> (v: Result<
    (),
    RouteError,
>)
    ensures
        v is Ok <==> all_fit(route_views(routes@), in_channels, out_channels),
        v matches Err(e) ==> is_first_fault(route_views(routes@), in_channels, out_channels, e),
{
    let ghost all = route_views(routes@);
    let mut i: usize = 0;
    while i < routes.len()
        invariant
            i <= routes@.len(),
            all == route_views(routes@),
            forall|k: int| 0 <= k < i ==> (#[trigger] all[k]).fits(in_channels, out_channels),
        decreases routes.len() - i,
    {
        assert(all[i as int] == routes@[i as int]@);
        match check_route(&routes[i], in_channels, out_channels) {
            Ok(_) => {},
            Err(e) => {
                proof {
                    fault_misfits(all[i as int], in_channels, out_channels, e);
                }
                return Err(e);
            },
        }
        i = i + 1;
    }
    Ok(())
}

proof fn fault_misfits(r: RouteView, in_channels: u16, out_channels: u16, e: RouteError)
    requires
        r.is_fault(in_channels, out_channels, e),
    ensures
        !r.fits(in_channels, out_channels),
{
}

/// Whose route a packet from `ip` belongs to: the last route of that address.
pub open spec fn routed(routes: Seq<RouteView>, ip: Ip) -> Option<int>
    decreases routes.len(),
{
    if routes.len() == 0 {
        None
    } else if routes.last().ip == ip {
        Some(routes.len() - 1)
    } else {
        routed(routes.drop_last(), ip)
    }
}

fn find_route(routes: &Vec<Route>, ip: Ip) -> (r: Option<usize>)
    ensures
        match r {
            Some(i) => routed(route_views(routes@), ip) == Some(i as int) && i < routes@.len(),
            None => routed(route_views(routes@), ip) is None,
        },
{
    let ghost all = route_views(routes@);
    let mut n: usize = routes.len();
    assert(all.take(n as int) =~= all);
    while n > 0
        invariant
            n <= routes@.len(),
            all == route_views(routes@),
            routed(all.take(n as int), ip) == routed(all, ip),
        decreases n,
    {
        assert(all.take(n as int).last() == routes@[n - 1]@);
        assert(all.take(n as int).drop_last() =~= all.take(n - 1));
        if routes[n - 1].ip == ip {
            return Some(n - 1);
        }
        n = n - 1;
    }
    None
}

/// The sending half of a stream.
pub struct Sender {
    pub routes: Vec<Route>,
    pub in_channels: u16,
    pub sample_rate: u32,
    /// The sequence number of the next packet.
    pub seq: u32,
}

impl Sender {
    /// The routes name channels that the device has.
    pub open spec fn wf(&self) -> bool {
        forall|i: int|
            0 <= i < self.routes@.len() ==> all_below(
                (#[trigger] self.routes@[i]).send@,
                self.in_channels,
            )
    }

    /// The packet that the peer of route `i` is sent.
    pub open spec fn packet_for(&self, i: int, block: Seq<u32>) -> PacketView {
        captured_packet(
            block,
            self.in_channels,
            self.routes@[i].send@,
            FRAMES_PER_PACKET,
            self.seq,
            self.sample_rate,
        )
    }

    /// Re-interleaves a block of captured frames into a packet per peer, which
    /// holds only that peer's `send` channels, in the configured order. All
    /// packets of a block have one sequence number.
    pub fn send_block(&mut self, block: &[u32]) -> (out: Vec<Datagram>)
        requires
            old(self).wf(),
            block@.len() == FRAMES_PER_PACKET * old(self).in_channels,
        ensures
            out@.len() == old(self).routes@.len(),
            forall|i: int|
                0 <= i < out@.len() ==> carries(
                    #[trigger] out@[i],
                    old(self).routes@[i].dest,
                    old(self).packet_for(i, block@),
                ),
            *final(self) == (Sender { seq: successor(old(self).seq), ..*old(self) }),
    {
        let rate: u16 = rate_for_header(self.sample_rate);
        let mut out: Vec<Datagram> = Vec::new();
        let mut i: usize = 0;
        while i < self.routes.len()
            invariant
                i <= self.routes@.len(),
                out@.len() == i,
                *self == *old(self),
                self.wf(),
                rate == crate::transport::header_rate(self.sample_rate),
                block@.len() == FRAMES_PER_PACKET * self.in_channels,
                forall|k: int|
                    0 <= k < i ==> carries(
                        #[trigger] out@[k],
                        self.routes@[k].dest,
                        self.packet_for(k, block@),
                    ),
            decreases self.routes.len() - i,
        {
            let route = &self.routes[i];
            proof {
                block_holds_channels(block@, self.in_channels, route.send@, FRAMES_PER_PACKET);
            }
            let packet = packetize(
                block,
                self.in_channels as usize,
                route.send.as_slice(),
                FRAMES_PER_PACKET,
                self.seq,
                rate,
            );
            let bytes = packet.encode();
            let d = Datagram { dest: route.dest, bytes };
            assert(packet@ == self.packet_for(i as int, block@));
            out.push(d);
            i = i + 1;
        }
        self.seq = self.seq.wrapping_add(1);
        out
    }
}

/// What has come in, for the log.
#[derive(Clone, Copy, PartialEq, Eq, Structural, Debug)]
pub struct Counters {
    /// Packets taken in.
    pub ok: u64,
    /// Datagrams from addresses that no route names.
    pub unknown: u64,
    /// Datagrams that are no packets.
    pub bad: u64,
    /// Packets at which a jitter buffer had to start over.
    pub resyncs: u64,
}

/// A counter one further, round the wrap.
pub open spec fn counted(n: u64) -> u64 {
    ((n + 1) % 0x1_0000_0000_0000_0000) as u64
}

/// The receiving half of a stream: a jitter buffer per route.
pub struct Receiver {
    pub routes: Vec<Route>,
    pub jitters: Vec<JitterBuffer>,
    /// Unconfigured sources that were heard, each once.
    pub unknown_seen: Vec<Ip>,
    pub out_channels: u16,
    pub counters: Counters,
}

/// What a [`Receiver`] holds.
pub struct ReceiverView {
    pub routes: Seq<RouteView>,
    pub jitters: Seq<JitterView>,
    pub unknown_seen: Seq<Ip>,
    pub out_channels: u16,
    pub counters: Counters,
}

/// What became of a datagram.
#[derive(Clone, Copy, PartialEq, Eq, Structural, Debug)]
pub enum Heard {
    /// A packet for the jitter buffer of `route`.
    Packet { route: usize, resynced: bool, newly_primed: bool },
    /// No packet.
    Bad,
    /// From an address that no route names; `first` the first time.
    Unknown { first: bool },
}

/// The views of a list of jitter buffers.
pub open spec fn jitter_views(jitters: Seq<JitterBuffer>) -> Seq<JitterView> {
    jitters.map_values(|j: JitterBuffer| j.view())
}

/// What is added to position `j` of the output in a round over the first `n`
/// routes: the routed samples of every primed peer whose packet is there.
pub open spec fn round_terms(
    routes: Seq<RouteView>,
    jitters: Seq<JitterView>,
    out_channels: u16,
    n: nat,
    j: int,
) -> Seq<u32>
    decreases n,
{
    if n == 0 {
        Seq::empty()
    } else {
        let front = round_terms(routes, jitters, out_channels, (n - 1) as nat, j);
        let jitter = jitters[n - 1];
        if jitter.primed && jitter.window[0] is Some {
            let (samples, channels) = jitter.window[0]->0;
            front + addends(
                samples,
                channels as int,
                out_channels as int,
                routes[n - 1].recv,
                FRAMES_PER_PACKET as int,
                j,
            )
        } else {
            front
        }
    }
}

/// A jitter buffer after a round: a primed one has moved on.
pub open spec fn after_round(jitter: JitterView) -> JitterView {
    if jitter.primed {
        jitter.drained()
    } else {
        jitter
    }
}

impl ReceiverView {
    /// What holds once a datagram has arrived, and what became of it.
    pub open spec fn heard(self, buf: Seq<u8>, from: Ip) -> (ReceiverView, Heard) {
        let c = self.counters;
        match (routed(self.routes, from), reading(buf)) {
            (Some(i), Some(p)) => {
                let jitter = self.jitters[i];
                let resynced = jitter.is_desync(p.seq);
                let next = jitter.inserted(p);
                (
                    ReceiverView {
                        jitters: self.jitters.update(i, next),
                        counters: Counters {
                            ok: counted(c.ok),
                            resyncs: if resynced {
                                counted(c.resyncs)
                            } else {
                                c.resyncs
                            },
                            ..c
                        },
                        ..self
                    },
                    Heard::Packet {
                        route: i as usize,
                        resynced,
                        newly_primed: !jitter.primed && next.primed,
                    },
                )
            },
            (Some(_), None) => (
                ReceiverView { counters: Counters { bad: counted(c.bad), ..c }, ..self },
                Heard::Bad,
            ),
            (None, _) => {
                let first = !self.unknown_seen.contains(from);
                (
                    ReceiverView {
                        unknown_seen: if first {
                            self.unknown_seen.push(from)
                        } else {
                            self.unknown_seen
                        },
                        counters: Counters { unknown: counted(c.unknown), ..c },
                        ..self
                    },
                    Heard::Unknown { first },
                )
            },
        }
    }

    /// Some peer plays.
    pub open spec fn any_primed(self) -> bool {
        exists|i: int| 0 <= i < self.jitters.len() && (#[trigger] self.jitters[i]).primed
    }

    /// Every packet that is due holds the samples that its route reads.
    pub open spec fn drainable(self) -> bool {
        forall|i: int|
            0 <= i < self.jitters.len() && (#[trigger] self.jitters[i]).primed
                && self.jitters[i].window[0] is Some ==> packet_covers(
                (self.jitters[i].window[0]->0).0.len() as int,
                (self.jitters[i].window[0]->0).1 as int,
                self.out_channels as int,
                self.routes[i].recv,
                FRAMES_PER_PACKET as int,
            )
    }

    /// Every primed buffer one packet further.
    pub open spec fn drained(self) -> ReceiverView {
        ReceiverView { jitters: self.jitters.map_values(|j: JitterView| after_round(j)), ..self }
    }

    /// `block` is what the outputs play in a round.
    pub open spec fn is_round<F: Fn(u32, u32) -> u32>(self, plus: F, block: Seq<u32>) -> bool {
        &&& block.len() == FRAMES_PER_PACKET * self.out_channels
        &&& forall|j: int|
            0 <= j < block.len() ==> sums_to(
                plus,
                0u32,
                round_terms(self.routes, self.jitters, self.out_channels, self.routes.len(), j),
                #[trigger] block[j],
            )
    }
}

impl View for Receiver {
    type V = ReceiverView;

    open spec fn view(&self) -> ReceiverView {
        ReceiverView {
            routes: route_views(self.routes@),
            jitters: jitter_views(self.jitters@),
            unknown_seen: self.unknown_seen@,
            out_channels: self.out_channels,
            counters: self.counters,
        }
    }
}

pub(crate) fn has_ip(ips: &Vec<Ip>, ip: Ip) -> (r: bool)
    ensures
        r == ips@.contains(ip),
{
    let mut i: usize = 0;
    while i < ips.len()
        invariant
            i <= ips@.len(),
            forall|k: int| 0 <= k < i ==> ips@[k] != ip,
        decreases ips.len() - i,
    {
        if ips[i] == ip {
            return true;
        }
        i = i + 1;
    }
    false
}

impl Receiver {
    /// There is a jitter buffer for every route, and all are in order.
    pub open spec fn wf(&self) -> bool {
        &&& self.jitters@.len() == self.routes@.len()
        &&& forall|i: int| 0 <= i < self.jitters@.len() ==> (#[trigger] self.jitters@[i]).wf()
    }

    /// A receiver that has heard nothing. `prime` is how many packets of a peer
    /// to buffer before it plays.
    pub fn new(routes: Vec<Route>, out_channels: u16, prime: usize) -> (r: Receiver)
        ensures
            r.wf(),
            r@ == (ReceiverView {
                routes: route_views(routes@),
                jitters: Seq::new(routes@.len(), |i: int| JitterView::fresh(prime as nat)),
                unknown_seen: Seq::empty(),
                out_channels,
                counters: Counters { ok: 0, unknown: 0, bad: 0, resyncs: 0 },
            }),
    {
        let mut jitters: Vec<JitterBuffer> = Vec::new();
        let mut i: usize = 0;
        while i < routes.len()
            invariant
                i <= routes@.len(),
                jitters@.len() == i,
                forall|k: int|
                    0 <= k < i ==> (#[trigger] jitters@[k]).wf() && jitters@[k].view()
                        == JitterView::fresh(prime as nat),
            decreases routes.len() - i,
        {
            jitters.push(JitterBuffer::new(prime));
            i = i + 1;
        }
        assert(jitter_views(jitters@) =~= Seq::new(
            routes@.len(),
            |i: int| JitterView::fresh(prime as nat),
        ));
        Receiver {
            routes,
            jitters,
            unknown_seen: Vec::new(),
            out_channels,
            counters: Counters { ok: 0, unknown: 0, bad: 0, resyncs: 0 },
        }
    }

    /// Takes in a datagram that came from `from`. Each peer has its own jitter
    /// buffer, found by the source address.
    pub fn on_datagram(&mut self, buf: &[u8], from: Ip) -> (h: Heard)
        requires
            old(self).wf(),
        ensures
            final(self).wf(),
            (final(self)@, h) == old(self)@.heard(buf@, from),
    {
        match find_route(&self.routes, from) {
            Some(i) => match AudioPacket::decode(buf) {
                Some(packet) => {
                    let out = ingest(&mut self.jitters[i], packet);
                    if out.resynced {
                        self.counters.resyncs = self.counters.resyncs.wrapping_add(1);
                    }
                    self.counters.ok = self.counters.ok.wrapping_add(1);
                    proof {
                        let next = old(self)@.jitters[i as int].inserted(packet@);
                        assert(self@.jitters =~= old(self)@.jitters.update(i as int, next));
                    }
                    Heard::Packet {
                        route: i,
                        resynced: out.resynced,
                        newly_primed: out.newly_primed,
                    }
                },
                None => {
                    self.counters.bad = self.counters.bad.wrapping_add(1);
                    Heard::Bad
                },
            },
            None => {
                self.counters.unknown = self.counters.unknown.wrapping_add(1);
                let first = !has_ip(&self.unknown_seen, from);
                if first {
                    self.unknown_seen.push(from);
                }
                Heard::Unknown { first }
            },
        }
    }

    /// Whether every packet that is due holds the samples that its route reads.
    pub fn drainable(&self) -> (r: bool)
        requires
            self.wf(),
        ensures
            r == self@.drainable(),
    {
        let mut i: usize = 0;
        while i < self.jitters.len()
            invariant
                i <= self.jitters@.len(),
                self.wf(),
                forall|k: int|
                    0 <= k < i && (#[trigger] self@.jitters[k]).primed
                        && self@.jitters[k].window[0] is Some ==> packet_covers(
                        (self@.jitters[k].window[0]->0).0.len() as int,
                        (self@.jitters[k].window[0]->0).1 as int,
                        self.out_channels as int,
                        self@.routes[k].recv,
                        FRAMES_PER_PACKET as int,
                    ),
            decreases self.jitters.len() - i,
        {
            assert(self@.jitters[i as int] == self.jitters@[i as int].view());
            assert(self@.routes[i as int] == self.routes@[i as int]@);
            if self.jitters[i].is_primed() {
                if let Some((len, channels)) = self.jitters[i].peek_shape() {
                    if !covers(
                        len,
                        channels,
                        self.out_channels as usize,
                        self.routes[i].recv.as_slice(),
                        FRAMES_PER_PACKET,
                    ) {
                        return false;
                    }
                }
            }
            i = i + 1;
        }
        true
    }

    /// Plays a round: every primed buffer is advanced, and the routed channels
    /// of what came out are summed into one block, so several peers can land on
    /// the same output. `None` as long as nothing is primed, so that playout
    /// starts cleanly. `plus` is the addition of two samples.
    pub fn drain<F: Fn(u32, u32) -> u32>(&mut self, plus: &F) -> (r: Option<Vec<u32>>)
        requires
            old(self).wf(),
            old(self)@.drainable(),
            forall|a: u32, b: u32| #[trigger] call_requires(*plus, (a, b)),
        ensures
            final(self).wf(),
            final(self)@ == old(self)@.drained(),
            r is Some <==> old(self)@.any_primed(),
            r matches Some(block) ==> old(self)@.is_round(*plus, block@),
    {
        let ghost start = self@;
        let out_channels: usize = self.out_channels as usize;
        let mut block: Vec<u32> = vec![0u32; FRAMES_PER_PACKET as usize * out_channels];
        let mut any = false;
        let mut i: usize = 0;
        proof {
            assert forall|j: int| 0 <= j < block@.len() implies sums_to(
                *plus,
                0u32,
                round_terms(start.routes, start.jitters, start.out_channels, 0, j),
                #[trigger] block@[j],
            ) by {
                sums_to_nothing(*plus, 0u32);
            }
        }
        while i < self.jitters.len()
            invariant
                i <= self.jitters@.len(),
                self.wf(),
                start == old(self)@,
                start.drainable(),
                start.routes.len() == start.jitters.len(),
                out_channels == start.out_channels,
                self@.routes == start.routes,
                self@.unknown_seen == start.unknown_seen,
                self@.out_channels == start.out_channels,
                self@.counters == start.counters,
                self@.jitters.len() == start.jitters.len(),
                forall|k: int|
                    0 <= k < start.jitters.len() ==> #[trigger] self@.jitters[k] == if k < i {
                        after_round(start.jitters[k])
                    } else {
                        start.jitters[k]
                    },
                any == exists|k: int| 0 <= k < i && (#[trigger] start.jitters[k]).primed,
                block@.len() == FRAMES_PER_PACKET * start.out_channels,
                forall|a: u32, b: u32| #[trigger] call_requires(*plus, (a, b)),
                forall|j: int|
                    0 <= j < block@.len() ==> sums_to(
                        *plus,
                        0u32,
                        round_terms(
                            start.routes,
                            start.jitters,
                            start.out_channels,
                            i as nat,
                            j,
                        ),
                        #[trigger] block@[j],
                    ),
            decreases self.jitters.len() - i,
        {
            let ghost jitter = start.jitters[i as int];
            assert(self@.jitters[i as int] == self.jitters@[i as int].view());
            assert(self@.routes[i as int] == self.routes@[i as int]@);
            let ghost was = self@.jitters;
            let ghost before = block@;
            if self.jitters[i].is_primed() {
                any = true;
                let drained = self.jitters[i].drain_next();
                assert(self@.jitters =~= was.update(i as int, jitter.drained()));
                assert(self@.routes =~= start.routes);
                if let Some((samples, channels)) = drained {
                    assert(packet_covers(
                        samples@.len() as int,
                        channels as int,
                        out_channels as int,
                        self.routes@[i as int].recv@,
                        FRAMES_PER_PACKET as int,
                    ));
                    proof {
                        block_takes_routes(
                            before.len() as int,
                            channels as int,
                            out_channels as int,
                            self.routes@[i as int].recv@,
                            FRAMES_PER_PACKET as int,
                        );
                    }
                    sum_into_output(
                        block.as_mut_slice(),
                        samples.as_slice(),
                        channels as usize,
                        out_channels,
                        self.routes[i].recv.as_slice(),
                        FRAMES_PER_PACKET as usize,
                        plus,
                    );
                    proof {
                        assert forall|j: int| 0 <= j < block@.len() implies sums_to(
                            *plus,
                            0u32,
                            round_terms(
                                start.routes,
                                start.jitters,
                                start.out_channels,
                                (i + 1) as nat,
                                j,
                            ),
                            #[trigger] block@[j],
                        ) by {
                            let terms = addends(
                                samples@,
                                channels as int,
                                out_channels as int,
                                start.routes[i as int].recv,
                                FRAMES_PER_PACKET as int,
                                j,
                            );
                            assert(before[j] == before[j]);
                            peers_sum_on_an_output(
                                *plus,
                                0u32,
                                round_terms(
                                    start.routes,
                                    start.jitters,
                                    start.out_channels,
                                    i as nat,
                                    j,
                                ),
                                before[j],
                                terms,
                                block@[j],
                            );
                        }
                    }
                }
            }
            i = i + 1;
        }
        assert(self@.jitters =~= start.drained().jitters);
        if any {
            Some(block)
        } else {
            None
        }
    }
}

/// A peer whose configuration names no channels is routed in a way that fits
/// whatever device there is.
pub proof fn default_route_fits(p: Peer, stream_port: u16, in_channels: u16, out_channels: u16)
    requires
        p.send is None,
        p.recv is None,
    ensures
        route_of(p, stream_port, in_channels, out_channels).fits(in_channels, out_channels),
{
}

/// Whoever receives what a block is sent as reads the chosen channels out of
/// it, sample by sample, as long as there are at most 255.
pub proof fn sent_audio_is_readable(
    block: Seq<u32>,
    in_channels: u16,
    channels: Seq<u16>,
    seq: u32,
    sample_rate: u32,
)
    requires
        channels.len() <= 255,
    ensures
        ({
            let p = captured_packet(
                block,
                in_channels,
                channels,
                FRAMES_PER_PACKET,
                seq,
                sample_rate,
            );
            reading(p.wire()) == Some(p)
        }),
{
    let p = captured_packet(block, in_channels, channels, FRAMES_PER_PACKET, seq, sample_rate);
    packetized_is_complete(p, block, in_channels as int, channels);
    decode_inverts_encode(p, Seq::empty());
    assert(p.wire() + Seq::<u8>::empty() =~= p.wire());
}

/// A packet of the usual length holds every sample that any route reads of it,
/// so it can be drained.
pub proof fn usual_packet_is_drainable(p: PacketView, out_channels: int, pairs: Seq<(u16, u16)>)
    requires
        p.complete(),
        p.frames == FRAMES_PER_PACKET,
    ensures
        packet_covers(
            p.samples.len() as int,
            p.channels as int,
            out_channels,
            pairs,
            FRAMES_PER_PACKET as int,
        ),
{
    let frames = FRAMES_PER_PACKET as int;
    let sc = p.channels as int;
    assert forall|f: int, i: int|
        0 <= f < frames && 0 <= i < pairs.len() && routes(
            pairs[i],
            sc,
            out_channels,
        ) implies #[trigger] cell(f, pairs[i].0 as int, sc) < p.samples.len() by {
        cell_position(f, pairs[i].0 as int, sc, frames);
    }
}

/// What arrives from one address reaches the buffer of that address's route and
/// no other.
pub proof fn peer_reaches_only_its_own_buffer(v: ReceiverView, buf: Seq<u8>, from: Ip, k: int)
    requires
        v.jitters.len() == v.routes.len(),
        0 <= k < v.jitters.len(),
        routed(v.routes, from) != Some(k),
    ensures
        v.heard(buf, from).0.jitters[k] == v.jitters[k],
{
    routed_in_range(v.routes, from);
}

proof fn routed_in_range(routes: Seq<RouteView>, ip: Ip)
    ensures
        routed(routes, ip) matches Some(i) ==> 0 <= i < routes.len() && routes[i].ip == ip,
    decreases routes.len(),
{
    if routes.len() > 0 {
        routed_in_range(routes.drop_last(), ip);
    }
}

/// A packet belongs to the last route that names the address it came from, and to
/// none where no route names it.
pub proof fn packets_belong_to_the_last_route_of_their_address(routes: Seq<RouteView>, ip: Ip)
    ensures
        routed(routes, ip) is None <==> forall|k: int|
            0 <= k < routes.len() ==> (#[trigger] routes[k]).ip != ip,
        forall|i: int| #[trigger]
            routed(routes, ip) == Some(i) <==> 0 <= i < routes.len() && routes[i].ip == ip && (
            forall|k: int| i < k < routes.len() ==> (#[trigger] routes[k]).ip != ip),
    decreases routes.len(),
{
    routed_in_range(routes, ip);
    if routes.len() > 0 {
        let front = routes.drop_last();
        packets_belong_to_the_last_route_of_their_address(front, ip);
        let n = routes.len() - 1;
        assert(routes[n] == routes.last());
        assert(forall|k: int| 0 <= k < n ==> front[k] == routes[k]);
        if routes.last().ip != ip && routed(routes, ip) is None {
            assert forall|k: int| 0 <= k < routes.len() implies (#[trigger] routes[k]).ip != ip by {
                if k < n {
                    assert(front[k].ip != ip);
                }
            }
        }
        assert forall|i: int| #[trigger]
            routed(routes, ip) == Some(i) <==> 0 <= i < routes.len() && routes[i].ip == ip && (
            forall|k: int| i < k < routes.len() ==> (#[trigger] routes[k]).ip != ip) by {
            if routes.last().ip != ip {
                if routed(routes, ip) == Some(i) {
                    assert(routed(front, ip) == Some(i));
                    assert forall|k: int| i < k < routes.len() implies (#[trigger] routes[k]).ip
                        != ip by {
                        if k < n {
                            assert(front[k].ip != ip);
                        }
                    }
                }
                if 0 <= i < routes.len() && routes[i].ip == ip && (forall|k: int|
                    i < k < routes.len() ==> (#[trigger] routes[k]).ip != ip) {
                    assert(front[i].ip == ip);
                    assert forall|k: int| i < k < front.len() implies (#[trigger] front[k]).ip
                        != ip by {
                        assert(routes[k].ip != ip);
                    }
                    assert(routed(front, ip) == Some(i));
                }
            } else if 0 <= i < n && routes[i].ip == ip {
                assert(routes[n].ip == ip);
            }
        }
    }
}

/// Every packet that comes from the address of a route is put into that route's
/// buffer, in its place, however much the buffer holds and whether or not it is
/// primed; nothing else changes but the counters.
pub proof fn datagram_reaches_its_buffer(
    v: ReceiverView,
    buf: Seq<u8>,
    from: Ip,
    i: int,
    p: PacketView,
)
    requires
        v.jitters.len() == v.routes.len(),
        0 <= i < v.routes.len(),
        v.routes[i].ip == from,
        forall|k: int| i < k < v.routes.len() ==> (#[trigger] v.routes[k]).ip != from,
        i <= usize::MAX,
        v.jitters[i].valid(),
        reading(buf) == Some(p),
    ensures
        ({
            let (w, h) = v.heard(buf, from);
            let was = v.jitters[i];
            let next = w.jitters[i];
            let d = (p.seq - was.read_seq) % 0x1_0000_0000;
            let holds = exists|k: int| 0 <= k < 256 && (#[trigger] was.window[k]) is Some;
            &&& w.routes == v.routes
            &&& w.out_channels == v.out_channels
            &&& w.unknown_seen == v.unknown_seen
            &&& w.jitters.len() == v.jitters.len()
            &&& forall|k: int|
                0 <= k < v.jitters.len() && k != i ==> (#[trigger] w.jitters[k]) == v.jitters[k]
            &&& next == was.inserted(p)
            &&& (was.primed || holds) && d < 256 ==> {
                &&& next.window[d] == Some((p.samples, p.channels))
                &&& next.read_seq == was.read_seq
                &&& forall|k: int| 0 <= k < 256 && k != d ==> (#[trigger] next.window[k])
                    == was.window[k]
            }
            &&& !(was.primed || holds) ==> {
                &&& next.window[0] == Some((p.samples, p.channels))
                &&& next.read_seq == p.seq
            }
            &&& (was.primed || holds) && 256 <= d < 0x1_0000_0000 - 256 ==> {
                &&& next.window[0] == Some((p.samples, p.channels))
                &&& next.read_seq == p.seq
                &&& !next.primed
            }
            &&& h matches Heard::Packet { route, resynced, newly_primed }
            &&& route == i
            &&& resynced <==> (was.primed || holds) && 256 <= d < 0x1_0000_0000 - 256
            &&& newly_primed <==> !was.primed && next.primed
            &&& w.counters.ok == (v.counters.ok + 1) % 0x1_0000_0000_0000_0000
            &&& w.counters.unknown == v.counters.unknown
            &&& w.counters.bad == v.counters.bad
            &&& w.counters.resyncs == if resynced {
                (v.counters.resyncs + 1) % 0x1_0000_0000_0000_0000
            } else {
                v.counters.resyncs as int
            }
        }),
{
    packets_belong_to_the_last_route_of_their_address(v.routes, from);
    assert(routed(v.routes, from) == Some(i));
    let was = v.jitters[i];
    filled_counts_the_places_taken(was);
    let d = (p.seq - was.read_seq) % 0x1_0000_0000;
    if was.filled() > 0 {
        let k = choose|k: int| 0 <= k < was.window.len() && (#[trigger] was.window[k]) is Some;
        assert(0 <= k < 256 && was.window[k] is Some);
    }
    if (was.primed || was.filled() > 0) && d < 256 {
        packet_ahead_takes_its_place(was, p);
    }
}

/// A datagram from the address of a route that is no packet, and one from an
/// address that no route names, are counted and leave every buffer alone. The
/// address of a stranger is noted the first time.
pub proof fn other_datagrams_leave_the_buffers_alone(v: ReceiverView, buf: Seq<u8>, from: Ip)
    requires
        v.jitters.len() == v.routes.len(),
    ensures
        ({
            let (w, h) = v.heard(buf, from);
            let known = exists|k: int| 0 <= k < v.routes.len() && (#[trigger] v.routes[k]).ip
                == from;
            &&& known && reading(buf) is None ==> {
                &&& h is Bad
                &&& w == (ReceiverView { counters: w.counters, ..v })
                &&& w.counters.bad == (v.counters.bad + 1) % 0x1_0000_0000_0000_0000
                &&& w.counters.ok == v.counters.ok
                &&& w.counters.unknown == v.counters.unknown
                &&& w.counters.resyncs == v.counters.resyncs
            }
            &&& !known ==> {
                &&& h matches Heard::Unknown { first }
                &&& first <==> !v.unknown_seen.contains(from)
                &&& w.jitters == v.jitters
                &&& w.routes == v.routes
                &&& w.out_channels == v.out_channels
                &&& w.unknown_seen == if first {
                    v.unknown_seen.push(from)
                } else {
                    v.unknown_seen
                }
                &&& w.counters.unknown == (v.counters.unknown + 1) % 0x1_0000_0000_0000_0000
                &&& w.counters.ok == v.counters.ok
                &&& w.counters.bad == v.counters.bad
                &&& w.counters.resyncs == v.counters.resyncs
            }
        }),
{
    packets_belong_to_the_last_route_of_their_address(v.routes, from);
}

/// What is added to output `o` of frame `f` in a round: of every peer that plays
/// and whose packet is there, in the order of the routes, the samples of that frame
/// which its route leads there.
pub proof fn round_adds_what_every_peer_routes(
    routes: Seq<RouteView>,
    jitters: Seq<JitterView>,
    out_channels: u16,
    n: nat,
    f: int,
    o: int,
)
    requires
        0 <= f < 64,
        0 <= o < out_channels,
    ensures
        round_terms(routes, jitters, out_channels, n, f * out_channels + o) == Seq::new(
            n,
            |i: int|
                if jitters[i].primed && jitters[i].window[0] is Some {
                    routes[i].recv.filter(
                        |p: (u16, u16)| p.1 == o && p.0 < (jitters[i].window[0]->0).1,
                    ).map_values(
                        |p: (u16, u16)|
                            (jitters[i].window[0]->0).0[f * (jitters[i].window[0]->0).1 + p.0],
                    )
                } else {
                    Seq::<u32>::empty()
                },
        ).flatten(),
    decreases n,
{
    let part = |i: int|
        if jitters[i].primed && jitters[i].window[0] is Some {
            routes[i].recv.filter(
                |p: (u16, u16)| p.1 == o && p.0 < (jitters[i].window[0]->0).1,
            ).map_values(
                |p: (u16, u16)|
                    (jitters[i].window[0]->0).0[f * (jitters[i].window[0]->0).1 + p.0],
            )
        } else {
            Seq::<u32>::empty()
        };
    let parts = Seq::new(n, part);
    if n > 0 {
        let m = (n - 1) as nat;
        round_adds_what_every_peer_routes(routes, jitters, out_channels, m, f, o);
        let front = Seq::new(m, part);
        assert(parts =~= front.push(part(m as int)));
        front.lemma_flatten_push(part(m as int));
        let peer = jitters[m as int];
        if peer.primed && peer.window[0] is Some {
            let (samples, channels) = peer.window[0]->0;
            addends_are_the_routed_samples(
                samples,
                channels as int,
                out_channels as int,
                routes[m as int].recv,
                FRAMES_PER_PACKET as int,
                f,
                o,
            );
            let leads = |p: (u16, u16)| p.1 == o && p.0 < channels as int;
            let leads_here = |p: (u16, u16)| p.1 == o && p.0 < (jitters[m as int].window[0]->0).1;
            assert(leads =~= leads_here);
            let read = |p: (u16, u16)| samples[f * (channels as int) + p.0];
            let read_here = |p: (u16, u16)|
                (jitters[m as int].window[0]->0).0[f * (jitters[m as int].window[0]->0).1 + p.0];
            assert(read =~= read_here);
        } else {
            assert(front.flatten() + Seq::<u32>::empty() =~= front.flatten());
        }
    } else {
        assert(parts =~= Seq::empty());
        assert(parts.flatten() =~= Seq::empty());
    }
}

/// What the outputs play in a round is, at every output of every frame, the sum of
/// what all peers that play have routed there, on top of silence.
pub proof fn round_plays_the_sum_of_all_peers<F: Fn(u32, u32) -> u32>(
    v: ReceiverView,
    plus: F,
    sum: spec_fn(u32, u32) -> u32,
    block: Seq<u32>,
    f: int,
    o: int,
)
    requires
        forall|a: u32, b: u32, c: u32| #[trigger]
            call_ensures(plus, (a, b), c) ==> c == sum(a, b),
        v.is_round(plus, block),
        0 <= f < 64,
        0 <= o < v.out_channels,
    ensures
        block.len() == 64 * v.out_channels,
        block[f * v.out_channels + o] == Seq::new(
            v.routes.len(),
            |i: int|
                if v.jitters[i].primed && v.jitters[i].window[0] is Some {
                    v.routes[i].recv.filter(
                        |p: (u16, u16)| p.1 == o && p.0 < (v.jitters[i].window[0]->0).1,
                    ).map_values(
                        |p: (u16, u16)|
                            (v.jitters[i].window[0]->0).0[f * (v.jitters[i].window[0]->0).1 + p.0],
                    )
                } else {
                    Seq::<u32>::empty()
                },
        ).flatten().fold_left(0u32, sum),
{
    let oc = v.out_channels as int;
    cell_position(f, o, oc, 64);
    let j = f * oc + o;
    round_adds_what_every_peer_routes(v.routes, v.jitters, v.out_channels, v.routes.len(), f, o);
    adding_up_is_a_fold(
        plus,
        sum,
        0u32,
        round_terms(v.routes, v.jitters, v.out_channels, v.routes.len(), j),
        block[j],
    );
}

proof fn only_part<A>(parts: Seq<Seq<A>>, k: int)
    requires
        0 <= k < parts.len(),
        forall|i: int| 0 <= i < parts.len() && i != k ==> (#[trigger] parts[i]).len() == 0,
    ensures
        parts.flatten() == parts[k],
    decreases parts.len(),
{
    let front = parts.drop_last();
    assert(parts =~= front.push(parts.last()));
    front.lemma_flatten_push(parts.last());
    if k == parts.len() - 1 {
        no_part(front);
        assert(front.flatten() + parts.last() =~= parts[k]);
    } else {
        only_part(front, k);
        assert(parts.last().len() == 0);
        assert(front.flatten() + parts.last() =~= front.flatten());
    }
}

proof fn no_part<A>(parts: Seq<Seq<A>>)
    requires
        forall|i: int| 0 <= i < parts.len() ==> (#[trigger] parts[i]).len() == 0,
    ensures
        parts.flatten().len() == 0,
    decreases parts.len(),
{
    if parts.len() > 0 {
        let front = parts.drop_last();
        assert(parts =~= front.push(parts.last()));
        front.lemma_flatten_push(parts.last());
        no_part(front);
        assert(parts[parts.len() - 1].len() == 0);
    }
}

/// A peer that plays alone is heard as its route says: at every output of every
/// frame, the sum of the samples of that frame which the route leads there.
pub proof fn single_peer_is_heard_as_routed<F: Fn(u32, u32) -> u32>(
    v: ReceiverView,
    plus: F,
    sum: spec_fn(u32, u32) -> u32,
    block: Seq<u32>,
    k: int,
    f: int,
    o: int,
)
    requires
        forall|a: u32, b: u32, c: u32| #[trigger]
            call_ensures(plus, (a, b), c) ==> c == sum(a, b),
        v.is_round(plus, block),
        0 <= k < v.routes.len(),
        v.jitters[k].primed,
        v.jitters[k].window[0] is Some,
        forall|i: int|
            0 <= i < v.routes.len() && i != k ==> !(#[trigger] v.jitters[i]).primed,
        0 <= f < 64,
        0 <= o < v.out_channels,
    ensures
        block[f * v.out_channels + o] == v.routes[k].recv.filter(
            |p: (u16, u16)| p.1 == o && p.0 < (v.jitters[k].window[0]->0).1,
        ).map_values(
            |p: (u16, u16)|
                (v.jitters[k].window[0]->0).0[f * (v.jitters[k].window[0]->0).1 + p.0],
        ).fold_left(0u32, sum),
{
    round_plays_the_sum_of_all_peers(v, plus, sum, block, f, o);
    let part = |i: int|
        if v.jitters[i].primed && v.jitters[i].window[0] is Some {
            v.routes[i].recv.filter(
                |p: (u16, u16)| p.1 == o && p.0 < (v.jitters[i].window[0]->0).1,
            ).map_values(
                |p: (u16, u16)|
                    (v.jitters[i].window[0]->0).0[f * (v.jitters[i].window[0]->0).1 + p.0],
            )
        } else {
            Seq::<u32>::empty()
        };
    let parts = Seq::new(v.routes.len(), part);
    assert forall|i: int| 0 <= i < parts.len() && i != k implies (#[trigger] parts[i]).len()
        == 0 by {
        assert(!v.jitters[i].primed);
    }
    only_part(parts, k);
}

/// A round moves every buffer that plays on by one packet, and no other; somebody
/// plays exactly where some buffer is primed.
pub proof fn round_moves_primed_buffers_on(v: ReceiverView, k: int)
    requires
        0 <= k < v.jitters.len(),
        v.jitters[k].valid(),
    ensures
        v.drained().jitters.len() == v.jitters.len(),
        v.jitters[k].primed ==> {
            &&& v.any_primed()
            &&& v.drained().jitters[k].primed
            &&& v.drained().jitters[k].read_seq == (v.jitters[k].read_seq + 1) % 0x1_0000_0000
            &&& forall|i: int|
                0 <= i < 255 ==> (#[trigger] v.drained().jitters[k].window[i])
                    == v.jitters[k].window[i + 1]
            &&& v.drained().jitters[k].window[255] is None
            &&& v.drained().jitters[k].prime == v.jitters[k].prime
        },
        !v.jitters[k].primed ==> v.drained().jitters[k] == v.jitters[k],
        v.any_primed() ==> exists|i: int|
            0 <= i < v.jitters.len() && (#[trigger] v.jitters[i]).primed,
        v.drained().routes == v.routes,
        v.drained().unknown_seen == v.unknown_seen,
        v.drained().out_channels == v.out_channels,
        v.drained().counters == v.counters,
{
    draining_moves_one_place(v.jitters[k]);
}

/// A round can be played exactly where no packet that is due is too short for what
/// its route reads.
pub proof fn round_can_be_played_unless_a_packet_is_short(v: ReceiverView)
    ensures
        v.drainable() <==> forall|k: int, f: int, i: int|
            0 <= k < v.jitters.len() && (#[trigger] v.jitters[k]).primed && v.jitters[k].window[0]
                is Some && 0 <= f < 64 && 0 <= i < v.routes[k].recv.len() && (
            #[trigger] v.routes[k].recv[i]).0 < (v.jitters[k].window[0]->0).1
                && v.routes[k].recv[i].1 < v.out_channels ==> #[trigger] (f * (
            v.jitters[k].window[0]->0).1) + v.routes[k].recv[i].0 < (
            v.jitters[k].window[0]->0).0.len(),
{
    let oc = v.out_channels as int;
    assert forall|k: int| 0 <= k < v.jitters.len() implies packet_covers(
        (v.jitters[k].window[0]->0).0.len() as int,
        (#[trigger] v.jitters[k].window[0]->0).1 as int,
        oc,
        v.routes[k].recv,
        64,
    ) == (forall|f: int, i: int|
        0 <= f < 64 && 0 <= i < v.routes[k].recv.len() && (#[trigger] v.routes[k].recv[i]).0 < (
        v.jitters[k].window[0]->0).1 && v.routes[k].recv[i].1 < oc ==> #[trigger] (f * (
        v.jitters[k].window[0]->0).1) + v.routes[k].recv[i].0 < (
        v.jitters[k].window[0]->0).0.len()) by {
        coverage_is_every_routed_sample(
            (v.jitters[k].window[0]->0).0.len() as int,
            (v.jitters[k].window[0]->0).1 as int,
            oc,
            v.routes[k].recv,
            64,
        );
    }
}

/// What a peer is sent goes to its own address, and is read there as a packet with
/// the number of the block, in which channel `i` of frame `f` is what the input
/// that is listed as number `i` for this peer held in that frame.
pub proof fn peer_is_sent_its_chosen_inputs(s: Sender, d: Datagram, i: int, block: Seq<u32>)
    requires
        0 <= i < s.routes@.len(),
        s.routes@[i].send@.len() <= 255,
        carries(d, s.routes@[i].dest, s.packet_for(i, block)),
    ensures
        d.dest == s.routes@[i].dest,
        reading(d.bytes@) matches Some(p) && {
            &&& p.seq == s.seq
            &&& p.sample_rate == s.sample_rate % 0x1_0000
            &&& p.channels == s.routes@[i].send@.len()
            &&& p.frames == 64
            &&& p.samples.len() == 64 * s.routes@[i].send@.len()
            &&& forall|f: int, c: int|
                0 <= f < 64 && 0 <= c < s.routes@[i].send@.len() ==> #[trigger] p.samples[f
                    * s.routes@[i].send@.len() + c] == block[f * s.in_channels
                    + s.routes@[i].send@[c]]
        },
{
    let p = s.packet_for(i, block);
    captured_packet_holds_the_chosen_inputs(
        block,
        s.in_channels,
        s.routes@[i].send@,
        FRAMES_PER_PACKET,
        s.seq,
        s.sample_rate,
    );
    packetized_is_complete(p, block, s.in_channels as int, s.routes@[i].send@);
    carried_packet_arrives(d, s.routes@[i].dest, p);
}

/// A peer's route is what its configuration says, to its address and the stream
/// port; it is sent every input, and heard on the output of the same number, where
/// its configuration does not say.
pub proof fn route_is_what_is_configured(
    p: Peer,
    stream_port: u16,
    in_channels: u16,
    out_channels: u16,
)
    ensures
        ({
            let r = route_of(p, stream_port, in_channels, out_channels);
            &&& r.name == p.name@
            &&& r.ip == p.addr.ip
            &&& r.dest.ip == p.addr.ip
            &&& r.dest.port == stream_port
            &&& p.send matches Some(s) ==> r.send == s@
            &&& p.recv matches Some(s) ==> r.recv == s@
            &&& p.send is None ==> r.send.len() == in_channels && forall|i: int|
                0 <= i < in_channels ==> (#[trigger] r.send[i]) == i
            &&& p.recv is None ==> r.recv.len() == out_channels && forall|i: int|
                0 <= i < out_channels ==> (#[trigger] r.recv[i]).0 == i && r.recv[i].1 == i
        }),
{
}

/// A route fits exactly where every input that it sends and every output that it
/// plays on is there; and what is reported of one that does not is the first of its
/// channels that is missing, inputs before outputs.
pub proof fn misfit_is_a_missing_channel(r: RouteView, in_channels: u16, out_channels: u16)
    ensures
        r.fits(in_channels, out_channels) <==> {
            &&& forall|i: int| 0 <= i < r.send.len() ==> (#[trigger] r.send[i]) < in_channels
            &&& forall|i: int| 0 <= i < r.recv.len() ==> (#[trigger] r.recv[i]).1 < out_channels
        },
        forall|e: RouteError| #[trigger]
            r.is_fault(in_channels, out_channels, e) ==> match e {
                RouteError::Send { peer, channel, in_channels: limit } => {
                    &&& peer@ == r.name
                    &&& limit == in_channels
                    &&& exists|k: int|
                        {
                            &&& 0 <= k < r.send.len()
                            &&& #[trigger] r.send[k] == channel
                            &&& channel >= in_channels
                            &&& forall|i: int| 0 <= i < k ==> (#[trigger] r.send[i]) < in_channels
                        }
                },
                RouteError::Output { peer, channel, out_channels: limit } => {
                    &&& peer@ == r.name
                    &&& limit == out_channels
                    &&& forall|i: int|
                        0 <= i < r.send.len() ==> (#[trigger] r.send[i]) < in_channels
                    &&& exists|k: int|
                        {
                            &&& 0 <= k < r.recv.len()
                            &&& (#[trigger] r.recv[k]).1 == channel
                            &&& channel >= out_channels
                            &&& forall|i: int|
                                0 <= i < k ==> (#[trigger] r.recv[i]).1 < out_channels
                        }
                },
            },
{
    let outs = r.outputs();
    assert(forall|i: int| 0 <= i < r.recv.len() ==> outs[i] == (#[trigger] r.recv[i]).1);
    if all_below(outs, out_channels) {
        assert forall|i: int| 0 <= i < r.recv.len() implies (#[trigger] r.recv[i]).1
            < out_channels by {
            assert(outs[i] < out_channels);
        }
    }
    assert forall|e: RouteError| #[trigger]
        r.is_fault(in_channels, out_channels, e) implies match e {
        RouteError::Send { peer, channel, in_channels: limit } => {
            &&& peer@ == r.name
            &&& limit == in_channels
            &&& exists|k: int|
                {
                    &&& 0 <= k < r.send.len()
                    &&& #[trigger] r.send[k] == channel
                    &&& channel >= in_channels
                    &&& forall|i: int| 0 <= i < k ==> (#[trigger] r.send[i]) < in_channels
                }
        },
        RouteError::Output { peer, channel, out_channels: limit } => {
            &&& peer@ == r.name
            &&& limit == out_channels
            &&& forall|i: int| 0 <= i < r.send.len() ==> (#[trigger] r.send[i]) < in_channels
            &&& exists|k: int|
                {
                    &&& 0 <= k < r.recv.len()
                    &&& (#[trigger] r.recv[k]).1 == channel
                    &&& channel >= out_channels
                    &&& forall|i: int| 0 <= i < k ==> (#[trigger] r.recv[i]).1 < out_channels
                }
        },
    } by {
        match e {
            RouteError::Send { peer, channel, in_channels: limit } => {
                let k = choose|k: int|
                    {
                        &&& 0 <= k < r.send.len()
                        &&& #[trigger] r.send[k] == channel
                        &&& channel >= in_channels
                        &&& all_below(r.send.take(k), in_channels)
                    };
                assert forall|i: int| 0 <= i < k implies (#[trigger] r.send[i]) < in_channels by {
                    assert(r.send.take(k)[i] < in_channels);
                }
                assert(r.send[k] == channel);
            },
            RouteError::Output { peer, channel, out_channels: limit } => {
                let k = choose|k: int|
                    {
                        &&& 0 <= k < outs.len()
                        &&& #[trigger] outs[k] == channel
                        &&& channel >= out_channels
                        &&& all_below(outs.take(k), out_channels)
                    };
                assert forall|i: int| 0 <= i < k implies (#[trigger] r.recv[i]).1
                    < out_channels by {
                    assert(outs.take(k)[i] < out_channels);
                }
                assert(r.recv[k].1 == channel);
            },
        }
    }
}

/// All routes fit where each does, and what is reported otherwise is wrong with the
/// first that does not.
pub proof fn first_misfit_is_reported(
    routes: Seq<RouteView>,
    in_channels: u16,
    out_channels: u16,
    e: RouteError,
)
    ensures
        all_fit(routes, in_channels, out_channels) <==> forall|i: int|
            0 <= i < routes.len() ==> (#[trigger] routes[i]).fits(in_channels, out_channels),
        is_first_fault(routes, in_channels, out_channels, e) ==> exists|i: int|
            {
                &&& 0 <= i < routes.len()
                &&& (#[trigger] routes[i]).is_fault(in_channels, out_channels, e)
                &&& forall|k: int|
                    0 <= k < i ==> (#[trigger] routes[k]).fits(in_channels, out_channels)
            },
{
}

/// A flag is preferred to what is configured, and what is configured to nothing.
pub proof fn flags_come_first<T>(flag: Option<T>, configured: Option<T>)
    ensures
        flag is Some ==> preferred(flag, configured) == flag,
        flag is None ==> preferred(flag, configured) == configured,
{
}

/// Every message about a channel that a peer is sent (or heard on) and that is out of
/// reach is worded with `p` around the peer, the channel and how many there are.
pub open spec fn routes_worded(send: bool, p: Seq<Seq<char>>) -> bool {
    if send {
        forall|peer: String, channel: u16, in_channels: u16|
            (#[trigger] (RouteError::Send { peer, channel, in_channels }).text()) == p[0] + peer@
                + p[1] + decimal(channel as nat) + p[2] + decimal(in_channels as nat) + p[3]
    } else {
        forall|peer: String, channel: u16, out_channels: u16|
            (#[trigger] (RouteError::Output { peer, channel, out_channels }).text()) == p[0]
                + peer@ + p[1] + decimal(channel as nat) + p[2] + decimal(out_channels as nat)
                + p[3]
    }
}

/// The messages about routes are worded alike, whatever the route: only the peer,
/// the channel and the count of channels differ, and these stand there in full.
pub proof fn route_messages_are_worded_alike()
    ensures
        exists|p: Seq<Seq<char>>| #[trigger] routes_worded(true, p),
        exists|p: Seq<Seq<char>>| #[trigger] routes_worded(false, p),
{
    let p = seq!["peer '"@, "': send channel "@, " exceeds input channels ("@, ")"@];
    assert(routes_worded(true, p));
    let q = seq!["peer '"@, "': output channel "@, " exceeds output channels ("@, ")"@];
    assert(routes_worded(false, q));
}

} // verus!
