//! Sharing signals with a group: who we are, whom we tell, and what we send to
//! everybody.
//!
//! Each peer M has up to four audio flows, kept apart by destination UDP port
//! and demuxed by source IP:
//!
//!   1. **M's outputs → us** (`stream_port`): local apps record M's signals.
//!   2. **our outputs → M** (`stream_port`): our exposed outputs are captured
//!      from the physical inputs and broadcast to every member.
//!   3. **us → M's inputs** (`stream_port+1`): what local apps play into M's
//!      device is sent to M.
//!   4. **M → our inputs** (`stream_port+1`): what M plays into our device is
//!      summed onto our outputs.
//!
//! Membership is the static roster of the group plus periodic advertisements.

use vstd::prelude::*;
use crate::config::{port_views, Addr, Config, ExposedPort, Group, Ip};
use crate::jitter::successor;
use crate::osc_msg::{Advertisement, AdvertisementView};
use crate::packet::{decode_inverts_encode, reading, PacketView};
use crate::stream::{copied, has_ip, FRAMES_PER_PACKET};
use crate::text::{decimal, join, joined, push_decimal, same_text, views};
use crate::transport::{
    all_below, block_holds_channels, captured_packet, captured_packet_holds_the_chosen_inputs,
    packetize, rate_for_header,
};

verus! {

/// How often we re-announce our device and ports to the group, in milliseconds.
pub const ADVERT_INTERVAL_MS: u64 = 1500;

/// Drop a member we haven't heard an advertisement from for this long, in
/// nanoseconds.
pub const MEMBER_TIMEOUT_NS: u128 = 5_000_000_000;

/// Signal `i` as it is listed.
pub open spec fn label(i: nat, name: Seq<char>) -> Seq<char> {
    "AUX"@ + decimal(i) + "="@ + name
}

/// A list of signals as they are listed.
pub open spec fn labels(names: Seq<Seq<char>>) -> Seq<Seq<char>> {
    Seq::new(names.len(), |i: int| label(i as nat, names[i]))
}

/// Renders a signal list as the `AUXn=name` mapping that is printed (the OS
/// shows the channels as AUX0, AUX1, … while gorgon keeps the human names).
pub fn labelled(names: &[String]) -> (s: String)
    ensures
        s@ == joined(labels(views(names@)), ", "@),
{
    let mut parts: Vec<String> = Vec::new();
    let ghost all = labels(views(names@));
    let mut i: usize = 0;
    while i < names.len()
        invariant
            i <= names@.len(),
            all == labels(views(names@)),
            views(parts@) =~= all.take(i as int),
        decreases names.len() - i,
    {
        let mut part = String::new();
        part.append("AUX");
        push_decimal(&mut part, i as u64);
        part.append("=");
        part.append(names[i].as_str());
        let ghost prev = parts@;
        parts.push(part);
        proof {
            assert(part@ =~= all[i as int]);
            assert(views(parts@) =~= views(prev).push(part@));
        }
        i = i + 1;
    }
    assert(all.take(i as int) =~= all);
    join(parts.as_slice(), ", ")
}

/// Joins the names of exposed ports.
pub fn port_names(ports: &Vec<ExposedPort>) -> (s: String)
    ensures
        s@ == joined(port_views(ports@), ", "@),
{
    let mut parts: Vec<String> = Vec::new();
    let ghost all = port_views(ports@);
    let mut i: usize = 0;
    while i < ports.len()
        invariant
            i <= ports@.len(),
            all == port_views(ports@),
            views(parts@) =~= all.take(i as int),
        decreases ports.len() - i,
    {
        let part = ports[i].name.clone();
        let ghost prev = parts@;
        parts.push(part);
        proof {
            assert(part@ =~= all[i as int]);
            assert(views(parts@) =~= views(prev).push(part@));
        }
        i = i + 1;
    }
    assert(all.take(i as int) =~= all);
    join(parts.as_slice(), ", ")
}

/// An id that tells our own advertisement from those of peers: wall-clock
/// nanoseconds mixed with the process id, which differ across machines and
/// restarts. It only needs to not collide with another live member.
pub open spec fn mixed_id(nanos: u128, pid: u32) -> u128 {
    nanos ^ ((pid as u128) << 96u128) ^ ((pid * 0x9E37_79B9_7F4A_7C15) as u128)
}

/// The id of a process that started at `nanos`: see [`mixed_id`].
pub fn gen_node_id(nanos: u128, pid: u32) -> (id: u128)
    ensures
        id == mixed_id(nanos, pid),
{
    let p: u128 = pid as u128;
    assert(0 <= pid * 0x9E37_79B9_7F4A_7C15 <= 0xffff_ffff * 0x9E37_79B9_7F4A_7C15);
    nanos ^ (p << 96u128) ^ (p * 0x9E37_79B9_7F4A_7C15)
}

/// Two processes that start in the same instant have different ids.
pub proof fn processes_differ(nanos: u128, p: u32, q: u32)
    requires
        p != q,
    ensures
        mixed_id(nanos, p) != mixed_id(nanos, q),
{
    let a: u128 = (p * 0x9E37_79B9_7F4A_7C15) as u128;
    let b: u128 = (q * 0x9E37_79B9_7F4A_7C15) as u128;
    assert(a <= 0xffff_ffff_ffff_ffff_ffff_ffff && b <= 0xffff_ffff_ffff_ffff_ffff_ffff);
    assert(nanos ^ ((p as u128) << 96u128) ^ a != nanos ^ ((q as u128) << 96u128) ^ b)
        by (bit_vector)
        requires
            p != q,
            a <= 0xffff_ffff_ffff_ffff_ffff_ffff,
            b <= 0xffff_ffff_ffff_ffff_ffff_ffff,
    ;
}

/// A process id that comes up again at another time makes another id.
pub proof fn restarts_differ(m: u128, n: u128, pid: u32)
    requires
        m != n,
    ensures
        mixed_id(m, pid) != mixed_id(n, pid),
{
    let a: u128 = (pid as u128) << 96u128;
    let b: u128 = (pid * 0x9E37_79B9_7F4A_7C15) as u128;
    assert(m ^ a ^ b != n ^ a ^ b) by (bit_vector)
        requires
            m != n,
    ;
}

/// The text in `bytes`, with what is no UTF-8 replaced.
pub uninterp spec fn lossy_text(bytes: Seq<u8>) -> Seq<char>;

/// `String::from_utf8_lossy`: the text in `bytes`, which is a function of the
/// bytes alone. ASCII bytes are the characters that they stand for; what becomes
/// of others is left to the name.
#[verifier::external_body]
fn from_utf8_lossy(bytes: &[u8]) -> (s: String)
    ensures
        s@ == lossy_text(bytes@),
        (forall|i: int| 0 <= i < bytes@.len() ==> (#[trigger] bytes@[i]) < 128) ==> s@ == Seq::new(
            bytes@.len(),
            |i: int| bytes@[i] as char,
        ),
{
    String::from_utf8_lossy(bytes).into_owned()
}

/// The bytes in front of the first zero, or all of them.
pub open spec fn until_zero(buf: Seq<u8>) -> Seq<u8>
    decreases buf.len(),
{
    if buf.len() == 0 || buf[0] == 0 {
        Seq::empty()
    } else {
        seq![buf[0]] + until_zero(buf.skip(1))
    }
}

proof fn until_zero_at(buf: Seq<u8>, n: int)
    requires
        0 <= n <= buf.len(),
        forall|i: int| 0 <= i < n ==> buf[i] != 0,
        n < buf.len() ==> buf[n] == 0,
    ensures
        until_zero(buf) == buf.take(n),
    decreases buf.len(),
{
    if n > 0 {
        until_zero_at(buf.skip(1), n - 1);
        assert(buf.take(n) =~= seq![buf[0]] + buf.skip(1).take(n - 1));
    } else {
        assert(buf.take(0) =~= Seq::empty());
    }
}

/// The OS hostname, used as the default device name when none is configured.
/// `rc` and `buf` are what the system call returned and filled in.
pub fn hostname(rc: i32, buf: &[u8]) -> (name: String)
    ensures
        rc == 0 ==> name@ == lossy_text(until_zero(buf@)),
        rc == 0 && (forall|i: int| 0 <= i < buf@.len() ==> (#[trigger] buf@[i]) < 128)
            ==> name@.len() == until_zero(buf@).len() && forall|i: int|
            0 <= i < name@.len() ==> (#[trigger] name@[i]) == until_zero(buf@)[i] as char,
        rc != 0 ==> name@ == "gorgon"@,
{
    if rc != 0 {
        return "gorgon".to_owned();
    }
    let mut n: usize = 0;
    while n < buf.len() && buf[n] != 0
        invariant
            n <= buf@.len(),
            forall|i: int| 0 <= i < n ==> buf@[i] != 0,
        decreases buf.len() - n,
    {
        n = n + 1;
    }
    proof {
        until_zero_at(buf@, n as int);
    }
    from_utf8_lossy(vstd::slice::slice_subrange(buf, 0, n))
}

/// Why a group cannot be joined.
pub enum JoinError {
    /// The configuration has no such group.
    NoGroup(String),
    /// We expose neither outputs nor inputs.
    NothingToShare,
    /// There is no port behind the stream port.
    NoInputPort,
}

impl JoinError {
    /// The error in words.
    pub open spec fn text(self) -> Seq<char> {
        match self {
            JoinError::NoGroup(name) => "no [groups."@ + name@ + "] section in config"@,
            JoinError::NothingToShare => {
                "config exposes no [[remote.outputs]] or [[remote.inputs]] — nothing to share"@
            },
            JoinError::NoInputPort => {
                "stream_port must be < 65535 (we use stream_port+1 for the inputs flow)"@
            },
        }
    }

    /// The error in words.
    pub fn message(&self) -> (s: String)
        ensures
            s@ == self.text(),
    {
        match self {
            JoinError::NoGroup(name) => {
                let mut s = String::new();
                s.append("no [groups.");
                s.append(name.as_str());
                s.append("] section in config");
                assert(s@ =~= self.text());
                s
            },
            JoinError::NothingToShare => {
                "config exposes no [[remote.outputs]] or [[remote.inputs]] — nothing to share".to_owned()
            },
            JoinError::NoInputPort => {
                "stream_port must be < 65535 (we use stream_port+1 for the inputs flow)".to_owned()
            },
        }
    }
}

/// Our place in a group.
pub struct Membership {
    pub device_name: String,
    /// The port of the inputs flows.
    pub in_port: u16,
    /// The addresses of the other members.
    pub members: Vec<Ip>,
    /// Where our outputs go to.
    pub out_dests: Vec<Addr>,
    /// Where our advertisements go to.
    pub advert_dests: Vec<Addr>,
}

/// The members of the group of this name, if there is one.
pub open spec fn roster_of(groups: Seq<Group>, name: Seq<char>) -> Option<Seq<Ip>>
    decreases groups.len(),
{
    if groups.len() == 0 {
        None
    } else if groups[0].name@ == name {
        Some(groups[0].members@)
    } else {
        roster_of(groups.skip(1), name)
    }
}

/// One port at each of a list of addresses.
pub open spec fn at_port(ips: Seq<Ip>, port: u16) -> Seq<Addr> {
    Seq::new(ips.len(), |i: int| Addr { ip: ips[i], port })
}

fn find_group(groups: &Vec<Group>, name: &str) -> (r: Option<usize>)
    ensures
        match r {
            Some(i) => i < groups@.len() && roster_of(groups@, name@) == Some(
                groups@[i as int].members@,
            ),
            None => roster_of(groups@, name@) is None,
        },
{
    let mut i: usize = 0;
    assert(groups@.skip(0) =~= groups@);
    while i < groups.len()
        invariant
            i <= groups@.len(),
            roster_of(groups@.skip(i as int), name@) == roster_of(groups@, name@),
        decreases groups.len() - i,
    {
        assert(groups@.skip(i as int)[0] == groups@[i as int]);
        assert(groups@.skip(i as int).skip(1) =~= groups@.skip(i + 1));
        if same_text(groups[i].name.as_str(), name) {
            return Some(i);
        }
        i = i + 1;
    }
    None
}

fn addresses(ips: &Vec<Ip>, port: u16) -> (v: Vec<Addr>)
    ensures
        v@ == at_port(ips@, port),
{
    let mut v: Vec<Addr> = Vec::new();
    let mut i: usize = 0;
    while i < ips.len()
        invariant
            i <= ips@.len(),
            v@ =~= at_port(ips@, port).take(i as int),
        decreases ips.len() - i,
    {
        v.push(Addr { ip: ips[i], port });
        i = i + 1;
    }
    assert(at_port(ips@, port).take(i as int) =~= at_port(ips@, port));
    v
}

/// Joins a group: looks up its roster and works out where to send. `host` is the
/// device name where none is configured. `must_share` refuses to join without
/// anything to share.
pub fn join_group(cfg: &Config, group_name: &str, host: &str, must_share: bool) -> (r: Result<
    Membership,
    JoinError,
>)
    ensures
        ({
            let roster = roster_of(cfg.groups@, group_name@);
            let shares = cfg.remote.outputs@.len() > 0 || cfg.remote.inputs@.len() > 0;
            &&& r is Ok <==> roster is Some && (must_share ==> shares) && cfg.stream_port < 65535
            &&& match r {
                Ok(m) => {
                    &&& m.device_name@ == match cfg.device_name {
                        Some(n) => n@,
                        None => host@,
                    }
                    &&& m.in_port == cfg.stream_port + 1
                    &&& m.members@ == roster->0
                    &&& m.out_dests@ == at_port(roster->0, cfg.stream_port)
                    &&& m.advert_dests@ == at_port(roster->0, cfg.bind_port)
                },
                Err(JoinError::NoGroup(n)) => roster is None && n@ == group_name@,
                Err(JoinError::NothingToShare) => roster is Some && must_share && !shares,
                Err(JoinError::NoInputPort) => {
                    roster is Some && (must_share ==> shares) && cfg.stream_port == 65535
                },
            }
        }),
{
    let group = match find_group(&cfg.groups, group_name) {
        Some(i) => &cfg.groups[i],
        None => {
            return Err(JoinError::NoGroup(group_name.to_owned()));
        },
    };
    if must_share && cfg.remote.outputs.len() == 0 && cfg.remote.inputs.len() == 0 {
        return Err(JoinError::NothingToShare);
    }
    let device_name = match &cfg.device_name {
        Some(n) => n.clone(),
        None => host.to_owned(),
    };
    if cfg.stream_port == 65535 {
        return Err(JoinError::NoInputPort);
    }
    Ok(
        Membership {
            device_name,
            in_port: cfg.stream_port + 1,
            members: copied(group.members.as_slice()),
            out_dests: addresses(&group.members, cfg.stream_port),
            advert_dests: addresses(&group.members, cfg.bind_port),
        },
    )
}

/// A port is exposed on a channel that the local device does not have.
pub enum PortError {
    /// An output is captured from an input channel past the last one.
    Output { name: String, channel: u16, in_channels: u16 },
    /// An input is played on an output channel past the last one.
    Input { name: String, channel: u16, out_channels: u16 },
}

impl PortError {
    /// The error in words.
    pub open spec fn text(self) -> Seq<char> {
        match self {
            PortError::Output { name, channel, in_channels } => {
                "output '"@ + name@ + "' channel "@ + decimal(channel as nat)
                    + " exceeds input channels ("@ + decimal(in_channels as nat) + ")"@
            },
            PortError::Input { name, channel, out_channels } => {
                "input '"@ + name@ + "' channel "@ + decimal(channel as nat)
                    + " exceeds output channels ("@ + decimal(out_channels as nat) + ")"@
            },
        }
    }

    /// The error in words.
    pub fn message(&self) -> (s: String)
        ensures
            s@ == self.text(),
    {
        let mut s = String::new();
        match self {
            PortError::Output { name, channel, in_channels } => {
                s.append("output '");
                s.append(name.as_str());
                s.append("' channel ");
                push_decimal(&mut s, *channel as u64);
                s.append(" exceeds input channels (");
                push_decimal(&mut s, *in_channels as u64);
            },
            PortError::Input { name, channel, out_channels } => {
                s.append("input '");
                s.append(name.as_str());
                s.append("' channel ");
                push_decimal(&mut s, *channel as u64);
                s.append(" exceeds output channels (");
                push_decimal(&mut s, *out_channels as u64);
            },
        }
        s.append(")");
        assert(s@ =~= self.text());
        s
    }
}

/// The local channels of a list of ports, in order.
pub open spec fn port_channels(ports: Seq<ExposedPort>) -> Seq<u16> {
    ports.map_values(|p: ExposedPort| p.channel)
}

/// Port `i` is the first whose channel is not below `limit`.
pub open spec fn is_first_misfit(ports: Seq<ExposedPort>, limit: u16, i: int) -> bool {
    &&& 0 <= i < ports.len()
    &&& ports[i].channel >= limit
    &&& forall|k: int| 0 <= k < i ==> (#[trigger] ports[k]).channel < limit
}

fn first_misfit(ports: &Vec<ExposedPort>, limit: u16) -> (r: Option<usize>)
    ensures
        match r {
            Some(i) => is_first_misfit(ports@, limit, i as int) && !all_below(
                port_channels(ports@),
                limit,
            ),
            None => all_below(port_channels(ports@), limit),
        },
{
    let mut i: usize = 0;
    while i < ports.len()
        invariant
            i <= ports@.len(),
            forall|k: int| 0 <= k < i ==> (#[trigger] ports@[k]).channel < limit,
        decreases ports.len() - i,
    {
        if ports[i].channel >= limit {
            assert(port_channels(ports@)[i as int] >= limit);
            return Some(i);
        }
        i = i + 1;
    }
    None
}

/// The channels to capture for our outputs, in order, held against the input
/// device.
pub fn output_channels(outputs: &Vec<ExposedPort>, in_channels: u16) -> (r: Result<
    Vec<u16>,
    PortError,
>)
    ensures
        r is Ok <==> all_below(port_channels(outputs@), in_channels),
        match r {
            Ok(channels) => channels@ == port_channels(outputs@),
            Err(e) => {
                &&& e matches PortError::Output { name, channel, in_channels: limit }
                &&& limit == in_channels
                &&& exists|i: int| #[trigger]
                    is_first_misfit(outputs@, in_channels, i) && outputs@[i].name@ == name@
                        && outputs@[i].channel == channel
            },
        },
{
    match first_misfit(outputs, in_channels) {
        Some(i) => Err(
            PortError::Output {
                name: outputs[i].name.clone(),
                channel: outputs[i].channel,
                in_channels,
            },
        ),
        None => {
            let mut channels: Vec<u16> = Vec::new();
            let mut i: usize = 0;
            while i < outputs.len()
                invariant
                    i <= outputs@.len(),
                    channels@ =~= port_channels(outputs@).take(i as int),
                decreases outputs.len() - i,
            {
                channels.push(outputs[i].channel);
                i = i + 1;
            }
            assert(port_channels(outputs@).take(i as int) =~= port_channels(outputs@));
            Ok(channels)
        },
    }
}

/// What a peer plays into our input number `k` goes to the output channel of
/// that input. A packet counts its channels modulo 65536.
pub open spec fn input_routes(inputs: Seq<ExposedPort>) -> Seq<(u16, u16)> {
    Seq::new(inputs.len(), |k: int| ((k % 0x1_0000) as u16, inputs[k].channel))
}

/// The routes of our inputs, held against the output device.
pub fn input_pairs(inputs: &Vec<ExposedPort>, out_channels: u16) -> (r: Result<
    Vec<(u16, u16)>,
    PortError,
>)
    ensures
        r is Ok <==> all_below(port_channels(inputs@), out_channels),
        match r {
            Ok(pairs) => pairs@ == input_routes(inputs@),
            Err(e) => {
                &&& e matches PortError::Input { name, channel, out_channels: limit }
                &&& limit == out_channels
                &&& exists|i: int| #[trigger]
                    is_first_misfit(inputs@, out_channels, i) && inputs@[i].name@ == name@
                        && inputs@[i].channel == channel
            },
        },
{
    match first_misfit(inputs, out_channels) {
        Some(i) => Err(
            PortError::Input {
                name: inputs[i].name.clone(),
                channel: inputs[i].channel,
                out_channels,
            },
        ),
        None => {
            let mut pairs: Vec<(u16, u16)> = Vec::new();
            let mut k: usize = 0;
            while k < inputs.len()
                invariant
                    k <= inputs@.len(),
                    pairs@ =~= input_routes(inputs@).take(k as int),
                decreases inputs.len() - k,
            {
                pairs.push(((k % 0x1_0000) as u16, inputs[k].channel));
                k = k + 1;
            }
            assert(input_routes(inputs@).take(k as int) =~= input_routes(inputs@));
            Ok(pairs)
        },
    }
}

/// Our outputs, as every member is sent them.
pub struct Broadcast {
    /// The local input channels of our outputs, in order.
    pub channels: Vec<u16>,
    pub in_channels: u16,
    pub sample_rate: u32,
    /// The sequence number of the next packet.
    pub seq: u32,
}

impl Broadcast {
    /// The outputs are on channels that the device has.
    pub open spec fn wf(&self) -> bool {
        all_below(self.channels@, self.in_channels)
    }

    /// The packet that a block is sent as.
    pub open spec fn packet(&self, block: Seq<u32>) -> PacketView {
        captured_packet(
            block,
            self.in_channels,
            self.channels@,
            FRAMES_PER_PACKET,
            self.seq,
            self.sample_rate,
        )
    }

    /// One packet per captured block. Everyone records the same device, so it is
    /// encoded once and goes to all members.
    pub fn send_block(&mut self, block: &[u32]) -> (bytes: Vec<u8>)
        requires
            old(self).wf(),
            block@.len() == FRAMES_PER_PACKET * old(self).in_channels,
        ensures
            bytes@ == old(self).packet(block@).wire(),
            *final(self) == (Broadcast { seq: successor(old(self).seq), ..*old(self) }),
    {
        proof {
            block_holds_channels(block@, self.in_channels, self.channels@, FRAMES_PER_PACKET);
        }
        let packet = packetize(
            block,
            self.in_channels as usize,
            self.channels.as_slice(),
            FRAMES_PER_PACKET,
            self.seq,
            rate_for_header(self.sample_rate),
        );
        assert(packet@ == self.packet(block@));
        self.seq = self.seq.wrapping_add(1);
        packet.encode()
    }
}

/// An advertisement is meant for us: it is for our group, not our own echo, and
/// from an address on the roster.
pub open spec fn concerns_us(
    ad: AdvertisementView,
    src_ip: Ip,
    group_name: Seq<char>,
    my_node_id: u128,
    members: Seq<Ip>,
) -> bool {
    ad.group == group_name && ad.node_id != my_node_id && members.contains(src_ip)
}

/// Whether an advertisement is meant for us: see [`concerns_us`].
pub fn is_for_us(
    ad: &Advertisement,
    src_ip: Ip,
    group_name: &str,
    my_node_id: u128,
    members: &Vec<Ip>,
) -> (r: bool)
    ensures
        r == concerns_us(ad@, src_ip, group_name@, my_node_id, members@),
{
    same_text(ad.group.as_str(), group_name) && ad.node_id != my_node_id && has_ip(members, src_ip)
}

/// Signal number `i` is listed as `AUX`, its number, an equals sign and its name;
/// all signals are, in order.
pub proof fn signals_are_listed_by_number(names: Seq<Seq<char>>, i: int)
    requires
        0 <= i < names.len(),
    ensures
        labels(names).len() == names.len(),
        labels(names)[i] == seq!['A', 'U', 'X'] + decimal(i as nat) + seq!['='] + names[i],
{
    reveal_strlit("AUX");
    reveal_strlit("=");
    assert("AUX"@ =~= seq!['A', 'U', 'X']);
    assert("="@ =~= seq!['=']);
}

/// The id of a process: the process id alone gives a number of its own, 32 bits at
/// the top and a multiple of a fixed odd number below them; and from one moment to
/// another the ids of a process differ in just the bits that the moments differ in.
pub proof fn id_mixes_time_and_process(m: u128, n: u128, pid: u32)
    ensures
        mixed_id(0, pid) == pid * 0x1_0000_0000_0000_0000_0000_0000 + pid * 0x9E37_79B9_7F4A_7C15,
        mixed_id(m, pid) ^ mixed_id(n, pid) == m ^ n,
{
    let a: u128 = (pid as u128) << 96u128;
    let b: u128 = (pid * 0x9E37_79B9_7F4A_7C15) as u128;
    assert(b <= 0xffff_ffff_ffff_ffff_ffff_ffff);
    assert((m ^ a ^ b) ^ (n ^ a ^ b) == m ^ n) by (bit_vector);
    assert(0u128 ^ ((pid as u128) << 96u128) ^ b == (pid as u128)
        * 0x1_0000_0000_0000_0000_0000_0000u128 + b) by (bit_vector)
        requires
            b <= 0xffff_ffff_ffff_ffff_ffff_ffff,
    ;
}

/// The text of a host name ends in front of its first zero byte, and takes the whole
/// buffer where there is none.
pub proof fn text_ends_at_the_first_zero(buf: Seq<u8>)
    ensures
        until_zero(buf).len() <= buf.len(),
        until_zero(buf) == buf.take(until_zero(buf).len() as int),
        forall|i: int| 0 <= i < until_zero(buf).len() ==> #[trigger] buf[i] != 0,
        until_zero(buf).len() < buf.len() ==> buf[until_zero(buf).len() as int] == 0,
    decreases buf.len(),
{
    if buf.len() > 0 && buf[0] != 0 {
        let rest = buf.skip(1);
        text_ends_at_the_first_zero(rest);
        let n = until_zero(rest).len() as int;
        assert(until_zero(buf) =~= buf.take(n + 1));
        assert forall|i: int| 0 <= i < n + 1 implies #[trigger] buf[i] != 0 by {
            if i > 0 {
                assert(rest[i - 1] != 0);
            }
        }
    } else {
        assert(until_zero(buf) =~= buf.take(0));
    }
}

/// A group's roster is that of the first group of its name, and there is none
/// exactly where no group has that name.
pub proof fn roster_is_that_of_the_first_group(groups: Seq<Group>, name: Seq<char>)
    ensures
        roster_of(groups, name) is None <==> forall|i: int|
            0 <= i < groups.len() ==> (#[trigger] groups[i]).name@ != name,
        roster_of(groups, name) matches Some(members) ==> exists|i: int|
            {
                &&& 0 <= i < groups.len()
                &&& (#[trigger] groups[i]).name@ == name
                &&& groups[i].members@ == members
                &&& forall|k: int| 0 <= k < i ==> (#[trigger] groups[k]).name@ != name
            },
    decreases groups.len(),
{
    if groups.len() > 0 {
        let rest = groups.skip(1);
        roster_is_that_of_the_first_group(rest, name);
        if groups[0].name@ != name {
            if roster_of(rest, name) is None {
                assert forall|i: int| 0 <= i < groups.len() implies (
                #[trigger] groups[i]).name@ != name by {
                    if i > 0 {
                        assert(rest[i - 1].name@ != name);
                    }
                }
            } else {
                let j = choose|j: int|
                    {
                        &&& 0 <= j < rest.len()
                        &&& (#[trigger] rest[j]).name@ == name
                        &&& rest[j].members@ == roster_of(rest, name)->0
                        &&& forall|k: int| 0 <= k < j ==> (#[trigger] rest[k]).name@ != name
                    };
                let i = j + 1;
                assert(groups[i] == rest[j]);
                assert forall|k: int| 0 <= k < i implies (#[trigger] groups[k]).name@ != name by {
                    if k > 0 {
                        assert(rest[k - 1].name@ != name);
                    }
                }
            }
        }
    }
}

/// Everybody on a roster is written to once, in order, all at one port.
pub proof fn everybody_is_written_to(ips: Seq<Ip>, port: u16, i: int)
    requires
        0 <= i < ips.len(),
    ensures
        at_port(ips, port).len() == ips.len(),
        at_port(ips, port)[i].ip == ips[i],
        at_port(ips, port)[i].port == port,
{
}

/// Output number `i` is captured from its own local channel, and what is played into
/// input number `i` goes to its own local channel. The ports fit a device exactly
/// where it has every one of these channels; otherwise the first that does not is
/// named.
pub proof fn ports_lead_to_their_channels(ports: Seq<ExposedPort>, limit: u16, i: int)
    requires
        0 <= i < ports.len(),
    ensures
        port_channels(ports).len() == ports.len(),
        port_channels(ports)[i] == ports[i].channel,
        input_routes(ports).len() == ports.len(),
        input_routes(ports)[i].0 == i % 0x1_0000,
        input_routes(ports)[i].1 == ports[i].channel,
        all_below(port_channels(ports), limit) <==> forall|k: int|
            0 <= k < ports.len() ==> (#[trigger] ports[k]).channel < limit,
        is_first_misfit(ports, limit, i) <==> limit <= ports[i].channel && forall|k: int|
            0 <= k < i ==> (#[trigger] ports[k]).channel < limit,
{
    if all_below(port_channels(ports), limit) {
        assert forall|k: int| 0 <= k < ports.len() implies (#[trigger] ports[k]).channel
            < limit by {
            assert(port_channels(ports)[k] < limit);
        }
    }
}

/// An advertisement is taken in exactly where its group is ours, it is not our own,
/// and whoever sent it is on the roster.
pub proof fn only_our_group_concerns_us(
    ad: AdvertisementView,
    src_ip: Ip,
    group_name: Seq<char>,
    my_node_id: u128,
    members: Seq<Ip>,
)
    ensures
        concerns_us(ad, src_ip, group_name, my_node_id, members) <==> {
            &&& ad.group == group_name
            &&& ad.node_id != my_node_id
            &&& exists|i: int| 0 <= i < members.len() && #[trigger] members[i] == src_ip
        },
{
}

/// What everybody is sent of a captured block: our outputs in order, output `i` of
/// frame `f` as its local channel held it then, under the next number. A peer reads
/// just that where we expose no more than 255 outputs.
pub proof fn everybody_is_sent_our_outputs(b: Broadcast, block: Seq<u32>)
    ensures
        ({
            let p = b.packet(block);
            let n = b.channels@.len();
            &&& p.seq == b.seq
            &&& p.sample_rate == b.sample_rate % 0x1_0000
            &&& p.channels == n % 256
            &&& p.frames == 64
            &&& p.samples.len() == 64 * n
            &&& forall|f: int, i: int|
                0 <= f < 64 && 0 <= i < n ==> #[trigger] p.samples[f * n + i] == block[f
                    * b.in_channels + b.channels@[i]]
            &&& n <= 255 ==> reading(p.wire()) == Some(p)
        }),
{
    captured_packet_holds_the_chosen_inputs(
        block,
        b.in_channels,
        b.channels@,
        64,
        b.seq,
        b.sample_rate,
    );
    if b.channels@.len() <= 255 {
        let p = b.packet(block);
        decode_inverts_encode(p, Seq::empty());
        assert(p.wire() + Seq::<u8>::empty() =~= p.wire());
    }
}

/// Every message about an output (or an input) that is out of reach is worded with
/// `p` around its name, its channel and how many channels there are.
pub open spec fn ports_worded(output: bool, p: Seq<Seq<char>>) -> bool {
    if output {
        forall|name: String, channel: u16, in_channels: u16|
            (#[trigger] (PortError::Output { name, channel, in_channels }).text()) == p[0] + name@
                + p[1] + decimal(channel as nat) + p[2] + decimal(in_channels as nat) + p[3]
    } else {
        forall|name: String, channel: u16, out_channels: u16|
            (#[trigger] (PortError::Input { name, channel, out_channels }).text()) == p[0] + name@
                + p[1] + decimal(channel as nat) + p[2] + decimal(out_channels as nat) + p[3]
    }
}

/// Every message about a group that is not configured is worded with `p` around its
/// name.
pub open spec fn groups_worded(p: Seq<Seq<char>>) -> bool {
    forall|name: String| (#[trigger] JoinError::NoGroup(name).text()) == p[0] + name@ + p[1]
}

/// The messages about ports are worded alike, whatever the port: only the name, the
/// channel and the count of channels differ, and these stand there in full. So are
/// those about groups that are not configured.
pub proof fn port_messages_are_worded_alike()
    ensures
        exists|p: Seq<Seq<char>>| #[trigger] ports_worded(true, p),
        exists|p: Seq<Seq<char>>| #[trigger] ports_worded(false, p),
        exists|p: Seq<Seq<char>>| #[trigger] groups_worded(p),
{
    let p = seq!["output '"@, "' channel "@, " exceeds input channels ("@, ")"@];
    assert(ports_worded(true, p));
    let q = seq!["input '"@, "' channel "@, " exceeds output channels ("@, ")"@];
    assert(ports_worded(false, q));
    assert(groups_worded(seq!["no [groups."@, "] section in config"@]));
}

} // verus!
