//! OSC packets as datagrams.

use vstd::prelude::*;
use crate::config::{port_views, Remote};
use crate::osc_msg::{
    advertised, advertisement, advertisement_round_trip, arg_views, array_view, packet_views,
    packet_views_at, packet_views_len, parse_advertisement, Advertisement, AdvertisementView, Arg,
    ArgView, Message, MessageView, OscView, Packet,
};
use rosc::{
    OscArray, OscBundle, OscColor, OscMessage, OscMidiMessage, OscPacket, OscTime, OscType,
};

verus! {

/// An OSC packet as the `rosc` crate holds it.
#[verifier::external_type_specification]
#[verifier::external_body]
pub struct ExOscPacket(rosc::OscPacket);

/// An argument of an OSC message as the `rosc` crate holds it.
#[verifier::external_type_specification]
#[verifier::external_body]
pub struct ExOscType(rosc::OscType);

/// What a datagram says in OSC, if it is well formed.
pub uninterp spec fn osc_reading(bytes: Seq<u8>) -> Option<OscView>;

/// A packet as a datagram.
pub uninterp spec fn osc_writing(p: OscView) -> Seq<u8>;

/// What a `rosc` packet holds.
pub uninterp spec fn osc_packet(p: rosc::OscPacket) -> OscView;

/// What a `rosc` argument holds.
pub uninterp spec fn osc_arg(a: rosc::OscType) -> ArgView;

/// What a list of `rosc` arguments holds.
pub open spec fn osc_args(args: Seq<rosc::OscType>) -> Seq<ArgView> {
    args.map_values(|a: rosc::OscType| osc_arg(a))
}

/// What a list of `rosc` packets holds.
pub open spec fn osc_packets(packets: Seq<rosc::OscPacket>) -> Seq<OscView> {
    packets.map_values(|p: rosc::OscPacket| osc_packet(p))
}

/// An opened `rosc` packet.
enum Opened {
    Message(String, Vec<OscType>),
    Bundle((u32, u32), Vec<OscPacket>),
}

/// An opened `rosc` argument.
enum OpenedArg {
    Common(Arg),
    Array(Vec<OscType>),
    /// An argument of another kind, as it was.
    Rare(OscType),
}

/// `rosc::decoder::decode_udp`: reads the OSC packet at the front of a datagram.
/// Bytes that follow it are passed over. What comes out is a function of the
/// bytes alone; the contract names it.
#[verifier::external_body]
fn decode_udp(buf: &[u8]) -> (r: Option<OscPacket>)
    ensures
        osc_reading(buf@) == match r {
            Some(p) => Some(osc_packet(p)),
            None => None,
        },
{
    match rosc::decoder::decode_udp(buf) {
        Ok((_, p)) => Some(p),
        Err(_) => None,
    }
}

/// Tells the two kinds of `rosc::OscPacket` apart and hands out their fields.
#[verifier::external_body]
fn open_packet(p: OscPacket) -> (r: Opened)
    ensures
        osc_packet(p) == match r {
            Opened::Message(addr, args) => OscView::Message(
                MessageView { addr: addr@, args: osc_args(args@) },
            ),
            Opened::Bundle(time, content) => OscView::Bundle(time, osc_packets(content@)),
        },
{
    match p {
        OscPacket::Message(m) => Opened::Message(m.addr, m.args),
        OscPacket::Bundle(b) => {
            Opened::Bundle((b.timetag.seconds, b.timetag.fractional), b.content)
        },
    }
}

/// Tells the kinds of `rosc::OscType` that gorgon reads, and arrays, from the
/// others, and hands out their values.
#[verifier::external_body]
fn open_arg(a: OscType) -> (r: OpenedArg)
    ensures
        match r {
            OpenedArg::Common(v) => osc_arg(a) == v@,
            OpenedArg::Array(content) => osc_arg(a) == ArgView::Array(osc_args(content@)),
            OpenedArg::Rare(v) => {
                &&& osc_arg(a) == osc_arg(v)
                &&& !osc_arg(v).is_common()
                &&& !(osc_arg(v) is Array)
            },
        },
{
    match a {
        OscType::Int(v) => OpenedArg::Common(Arg::Int(v)),
        OscType::Float(v) => OpenedArg::Common(Arg::Float(v.to_bits())),
        OscType::String(v) => OpenedArg::Common(Arg::Text(v)),
        OscType::Long(v) => OpenedArg::Common(Arg::Long(v)),
        OscType::Double(v) => OpenedArg::Common(Arg::Double(v.to_bits())),
        OscType::Bool(v) => OpenedArg::Common(Arg::Bool(v)),
        OscType::Array(v) => OpenedArg::Array(v.content),
        rare => OpenedArg::Rare(rare),
    }
}

/// Tells the other kinds of `rosc::OscType` apart and hands out their values.
#[verifier::external_body]
fn open_rare(a: OscType) -> (r: Option<Arg>)
    ensures
        match r {
            Some(v) => osc_arg(a) == v@,
            None => osc_arg(a).is_common() || osc_arg(a) is Array,
        },
{
    match a {
        OscType::Blob(v) => Some(Arg::Blob(v)),
        OscType::Time(t) => Some(Arg::Time(t.seconds, t.fractional)),
        OscType::Char(v) => Some(Arg::Char(v)),
        OscType::Color(c) => Some(Arg::Color(c.red, c.green, c.blue, c.alpha)),
        OscType::Midi(m) => Some(Arg::Midi(m.port, m.status, m.data1, m.data2)),
        OscType::Nil => Some(Arg::Nil),
        OscType::Inf => Some(Arg::Inf),
        _ => None,
    }
}

/// Makes the `rosc::OscType` that holds an argument of a kind that gorgon reads;
/// `bytemuck::cast` gives a number back its pattern.
#[verifier::external_body]
fn make_common(a: &Arg) -> (r: Option<OscType>)
    ensures
        match r {
            Some(v) => osc_arg(v) == a@,
            None => !a@.is_common(),
        },
{
    match a {
        Arg::Int(v) => Some(OscType::Int(*v)),
        Arg::Float(v) => Some(OscType::Float(bytemuck::cast(*v))),
        Arg::Text(v) => Some(OscType::String(v.clone())),
        Arg::Long(v) => Some(OscType::Long(*v)),
        Arg::Double(v) => Some(OscType::Double(bytemuck::cast(*v))),
        Arg::Bool(v) => Some(OscType::Bool(*v)),
        _ => None,
    }
}

/// Makes the `rosc::OscType` that holds an argument of another kind, other than
/// an array.
#[verifier::external_body]
fn make_rare(a: &Arg) -> (r: Option<OscType>)
    ensures
        match r {
            Some(v) => osc_arg(v) == a@,
            None => a@.is_common() || a@ is Array,
        },
{
    Some(match *a {
        Arg::Blob(ref v) => OscType::Blob(v.clone()),
        Arg::Time(seconds, fractional) => OscType::Time(OscTime { seconds, fractional }),
        Arg::Char(v) => OscType::Char(v),
        Arg::Color(red, green, blue, alpha) => OscType::Color(OscColor { red, green, blue, alpha }),
        Arg::Midi(port, status, data1, data2) => {
            OscType::Midi(OscMidiMessage { port, status, data1, data2 })
        },
        Arg::Nil => OscType::Nil,
        Arg::Inf => OscType::Inf,
        _ => return None,
    })
}

/// Makes the `rosc::OscType` that holds an array.
#[verifier::external_body]
fn make_array(content: Vec<OscType>) -> (r: OscType)
    ensures
        osc_arg(r) == ArgView::Array(osc_args(content@)),
{
    OscType::Array(OscArray { content })
}

/// Makes the `rosc::OscPacket` that holds a message.
#[verifier::external_body]
fn make_message(addr: &str, args: Vec<OscType>) -> (r: OscPacket)
    ensures
        osc_packet(r) == OscView::Message(MessageView { addr: addr@, args: osc_args(args@) }),
{
    OscPacket::Message(OscMessage { addr: addr.to_string(), args })
}

/// Makes the `rosc::OscPacket` that holds a bundle.
#[verifier::external_body]
fn make_bundle(time: (u32, u32), content: Vec<OscPacket>) -> (r: OscPacket)
    ensures
        osc_packet(r) == OscView::Bundle(time, osc_packets(content@)),
{
    let timetag = OscTime { seconds: time.0, fractional: time.1 };
    OscPacket::Bundle(OscBundle { timetag, content })
}

/// The packet survives the wire: it is a message whose address starts with a
/// slash, no text in it holds the character that ends a text on the wire, and no
/// argument is a blob or an array.
pub open spec fn wire_safe(p: OscView) -> bool {
    match p {
        OscView::Message(m) => {
            &&& m.addr.len() > 0
            &&& m.addr[0] == '/'
            &&& !m.addr.contains('\0')
            &&& forall|i: int|
                0 <= i < m.args.len() ==> match #[trigger] m.args[i] {
                    ArgView::Text(t) => !t.contains('\0'),
                    ArgView::Blob(_) => false,
                    ArgView::Array(_) => false,
                    _ => true,
                }
        },
        OscView::Bundle(_, _) => false,
    }
}

/// `rosc::encoder::encode`. It never fails. Its bytes are a function of what the
/// packet holds, which the contract names, and a packet that survives the wire is
/// read back from them as it was. Of other packets it is left unsaid what is read
/// back: of a blob, for one, more may be taken for padding than was written.
#[verifier::external_body]
fn encode_packet(p: &OscPacket) -> (bytes: Vec<u8>)
    ensures
        bytes@ == osc_writing(osc_packet(*p)),
        wire_safe(osc_packet(*p)) ==> osc_reading(bytes@) == Some(osc_packet(*p)),
{
    rosc::encoder::encode(p).unwrap_or_default()
}

/// Takes over a list of arguments, with all that is in them.
fn open_args(args: Vec<OscType>) -> (r: Vec<Arg>)
    ensures
        arg_views(r@) == osc_args(args@),
    decreases osc_args(args@),
{
    let mut r: Vec<Arg> = Vec::new();
    let ghost all = osc_args(args@);
    for a in it: args
        invariant
            it.seq() == args@,
            all == osc_args(args@),
            arg_views(r@) =~= all.take(it.index()),
    {
        let ghost prev = r@;
        assert(all[it.index()] == osc_arg(a));
        let arg = match open_arg(a) {
            OpenedArg::Common(v) => v,
            OpenedArg::Array(content) => {
                proof {
                    assert(decreases_to!(all => all[it.index()]));
                    assert(decreases_to!(all[it.index()] => all[it.index()]->Array_0));
                }
                let c = open_args(content);
                proof {
                    array_view(c);
                }
                Arg::Array(c)
            },
            OpenedArg::Rare(v) => match open_rare(v) {
                Some(v) => v,
                None => Arg::Nil,
            },
        };
        r.push(arg);
        proof {
            assert(arg_views(r@) =~= arg_views(prev).push(arg@));
            assert(all.take(it.index() + 1) =~= all.take(it.index()).push(all[it.index()]));
        }
    }
    assert(all.take(args@.len() as int) =~= all);
    r
}

/// Takes over a packet, with all that is in it.
fn open(p: OscPacket) -> (r: Packet)
    ensures
        r@ == osc_packet(p),
    decreases osc_packet(p),
{
    match open_packet(p) {
        Opened::Message(addr, args) => Packet::Message(Message { addr, args: open_args(args) }),
        Opened::Bundle(time, content) => {
            let mut c: Vec<Packet> = Vec::new();
            let ghost all = osc_packets(content@);
            for q in it: content
                invariant
                    it.seq() == content@,
                    all == osc_packets(content@),
                    osc_packet(p) == OscView::Bundle(time, all),
                    packet_views(c@, c@.len()) =~= all.take(it.index()),
            {
                let ghost prev = c@;
                proof {
                    assert(all[it.index()] == osc_packet(q));
                    assert(decreases_to!(osc_packet(p) => osc_packet(p)->Bundle_1));
                    assert(decreases_to!(all => all[it.index()]));
                }
                let inner = open(q);
                c.push(inner);
                proof {
                    packet_views_push(prev, inner, prev.len());
                    assert(all.take(it.index() + 1) =~= all.take(it.index()).push(
                        all[it.index()],
                    ));
                }
            }
            assert(all.take(content@.len() as int) =~= all);
            Packet::Bundle(time, c)
        },
    }
}

proof fn packet_views_push(c: Seq<Packet>, p: Packet, n: nat)
    requires
        n <= c.len(),
    ensures
        packet_views(c.push(p), n) == packet_views(c, n),
        packet_views(c.push(p), c.len() + 1) == packet_views(c.push(p), c.len()).push(p@),
    decreases n,
{
    if n > 0 {
        packet_views_push(c, p, (n - 1) as nat);
    }
}

/// Makes a list of `rosc` arguments.
fn make_args(args: &Vec<Arg>) -> (r: Vec<OscType>)
    ensures
        osc_args(r@) == arg_views(args@),
    decreases args,
{
    let mut r: Vec<OscType> = Vec::new();
    let ghost all = arg_views(args@);
    let mut i: usize = 0;
    while i < args.len()
        invariant
            i <= args@.len(),
            all == arg_views(args@),
            osc_args(r@) =~= all.take(i as int),
        decreases args.len() - i,
    {
        let ghost prev = r@;
        assert(all[i as int] == args@[i as int]@);
        let arg = match make_common(&args[i]) {
            Some(v) => v,
            None => match &args[i] {
                Arg::Array(c) => {
                    proof {
                        array_view(*c);
                        vstd::std_specs::vec::axiom_vec_index_decreases(*args, i as int);
                        assert(decreases_to!(args@[i as int] => args@[i as int]->Array_0));
                        assert(decreases_to!(*args => *c));
                    }
                    make_array(make_args(c))
                },
                rare => match make_rare(rare) {
                    Some(v) => v,
                    None => make_array(Vec::new()),
                },
            },
        };
        r.push(arg);
        proof {
            assert(osc_args(r@) =~= osc_args(prev).push(osc_arg(arg)));
            assert(all.take(i + 1) =~= all.take(i as int).push(all[i as int]));
        }
        i = i + 1;
    }
    assert(all.take(i as int) =~= all);
    r
}

/// Makes a `rosc` packet.
fn make(packet: &Packet) -> (r: OscPacket)
    ensures
        osc_packet(r) == packet@,
    decreases packet,
{
    match packet {
        Packet::Message(m) => make_message(m.addr.as_str(), make_args(&m.args)),
        Packet::Bundle(time, c) => {
            let mut content: Vec<OscPacket> = Vec::new();
            let ghost all = packet_views(c@, c@.len());
            proof {
                packet_views_len(c@, c@.len());
            }
            let mut i: usize = 0;
            while i < c.len()
                invariant
                    i <= c@.len(),
                    packet is Bundle,
                    packet->Bundle_1 == *c,
                    all == packet_views(c@, c@.len()),
                    all.len() == c@.len(),
                    osc_packets(content@) =~= all.take(i as int),
                decreases c.len() - i,
            {
                proof {
                    packet_views_at(c@, c@.len(), i as int);
                    assert(decreases_to!(*packet => packet->Bundle_1));
                    vstd::std_specs::vec::axiom_vec_index_decreases(*c, i as int);
                    assert(decreases_to!(*packet => c@[i as int]));
                }
                let ghost prev = content@;
                let inner = make(&c[i]);
                content.push(inner);
                proof {
                    assert(osc_packets(content@) =~= osc_packets(prev).push(osc_packet(inner)));
                    assert(all.take(i + 1) =~= all.take(i as int).push(all[i as int]));
                }
                i = i + 1;
            }
            assert(all.take(i as int) =~= all);
            make_bundle(*time, content)
        },
    }
}

/// Reads a datagram as OSC; `None` where it is not well formed.
pub fn decode(buf: &[u8]) -> (r: Option<Packet>)
    ensures
        osc_reading(buf@) == match r {
            Some(p) => Some(p@),
            None => None,
        },
{
    match decode_udp(buf) {
        Some(p) => Some(open(p)),
        None => None,
    }
}

/// Writes a packet as a datagram.
pub fn encode(packet: &Packet) -> (bytes: Vec<u8>)
    ensures
        bytes@ == osc_writing(packet@),
        wire_safe(packet@) ==> osc_reading(bytes@) == Some(packet@),
{
    encode_packet(&make(packet))
}

/// The advertisement that a datagram carries, if any.
pub open spec fn heard(bytes: Seq<u8>) -> Option<AdvertisementView> {
    match osc_reading(bytes) {
        Some(p) => advertised(p),
        None => None,
    }
}

/// The advertisement that a datagram carries, if any.
pub fn hear(buf: &[u8]) -> (r: Option<Advertisement>)
    ensures
        heard(buf@) == match r {
            Some(ad) => Some(ad@),
            None => None,
        },
{
    match decode(buf) {
        Some(p) => parse_advertisement(&p),
        None => None,
    }
}

/// No text of the advertisement holds the character that ends a text on the
/// wire.
pub open spec fn plain_texts(ad: AdvertisementView) -> bool {
    &&& !ad.group.contains('\0')
    &&& !ad.device_name.contains('\0')
    &&& forall|i: int| 0 <= i < ad.outputs.len() ==> !(#[trigger] ad.outputs[i]).contains('\0')
    &&& forall|i: int| 0 <= i < ad.inputs.len() ==> !(#[trigger] ad.inputs[i]).contains('\0')
}

/// What a member tells its group about itself.
pub open spec fn self_description(
    group: Seq<char>,
    node_id: u128,
    device_name: Seq<char>,
    remote: Remote,
) -> AdvertisementView {
    AdvertisementView {
        group,
        node_id,
        device_name,
        outputs: port_views(remote.outputs@),
        inputs: port_views(remote.inputs@),
    }
}

proof fn hex_padded_plain(n: nat, width: nat)
    ensures
        !crate::text::hex_padded(n, width).contains('\0'),
    decreases width,
{
    if width > 0 {
        hex_padded_plain(n / 16, (width - 1) as nat);
        let front = crate::text::hex_padded(n / 16, (width - 1) as nat);
        let s = crate::text::hex_padded(n, width);
        assert forall|i: int| 0 <= i < s.len() implies s[i] != '\0' by {
            if i < front.len() {
                assert(front.contains(front[i]));
            } else {
                assert(0 <= n % 16 < 16);
            }
        }
    }
}

/// An advertisement with plain texts survives the wire.
proof fn advertisement_is_wire_safe(ad: AdvertisementView)
    requires
        plain_texts(ad),
    ensures
        wire_safe(OscView::Message(ad.message())),
{
    reveal_strlit("/gorgon/adv/");
    let m = ad.message();
    let a = m.args;
    let no = ad.outputs.len() as int;
    hex_padded_plain(ad.node_id as nat, 32);
    assert forall|i: int| 0 <= i < m.addr.len() implies m.addr[i] != '\0' by {
        if i >= 12 {
            assert(ad.group.contains(ad.group[i - 12]));
        }
    }
    assert forall|i: int| 0 <= i < a.len() implies match #[trigger] a[i] {
        ArgView::Text(t) => !t.contains('\0'),
        ArgView::Blob(_) => false,
        ArgView::Array(_) => false,
        _ => true,
    } by {
        if i >= 4 + no {
            assert(a[i] == ArgView::Text(ad.inputs[i - 4 - no]));
        } else if i >= 4 {
            assert(a[i] == ArgView::Text(ad.outputs[i - 4]));
        }
    }
}

/// The datagram by which a member tells a group about itself. Whoever reads it
/// hears what was said: the group, the id, the device name and the names of the
/// ports, in order.
pub fn announce(group: &str, node_id: u128, device_name: &str, remote: &Remote) -> (bytes: Vec<u8>)
    ensures
        ({
            let ad = self_description(group@, node_id, device_name@, *remote);
            &&& bytes@ == osc_writing(OscView::Message(ad.message()))
            &&& plain_texts(ad) && ad.group.len() > 0 && ad.outputs.len() <= i32::MAX
                && ad.inputs.len() <= i32::MAX ==> heard(bytes@) == Some(ad)
        }),
{
    let packet = advertisement(group, node_id, device_name, remote);
    let ghost ad = self_description(group@, node_id, device_name@, *remote);
    proof {
        if plain_texts(ad) {
            advertisement_is_wire_safe(ad);
        }
        if ad.group.len() > 0 && ad.outputs.len() <= i32::MAX && ad.inputs.len() <= i32::MAX {
            advertisement_round_trip(ad);
        }
    }
    encode(&packet)
}

/// A datagram is heard as an advertisement exactly where it is read as a packet that
/// advertises, and as what that packet says.
pub proof fn hearing_is_reading_what_is_advertised(bytes: Seq<u8>)
    ensures
        osc_reading(bytes) is None ==> heard(bytes) is None,
        osc_reading(bytes) matches Some(p) ==> heard(bytes) == advertised(p),
{
}

/// A member describes itself by its group, its id, its device name, and the names of
/// its exposed ports in the order in which they are configured.
pub proof fn description_names_every_port(
    group: Seq<char>,
    node_id: u128,
    device_name: Seq<char>,
    remote: Remote,
)
    ensures
        ({
            let ad = self_description(group, node_id, device_name, remote);
            &&& ad.group == group
            &&& ad.node_id == node_id
            &&& ad.device_name == device_name
            &&& ad.outputs.len() == remote.outputs@.len()
            &&& ad.inputs.len() == remote.inputs@.len()
            &&& forall|i: int|
                0 <= i < remote.outputs@.len() ==> #[trigger] ad.outputs[i]
                    == remote.outputs@[i].name@
            &&& forall|i: int|
                0 <= i < remote.inputs@.len() ==> #[trigger] ad.inputs[i]
                    == remote.inputs@[i].name@
        }),
{
}

/// Texts are plain where none of them holds the character that ends a text on the
/// wire, and then whoever hears the advertisement hears all of it.
pub proof fn plain_advertisement_survives(ad: AdvertisementView)
    requires
        forall|i: int| 0 <= i < ad.group.len() ==> #[trigger] ad.group[i] != '\0',
        forall|i: int| 0 <= i < ad.device_name.len() ==> #[trigger] ad.device_name[i] != '\0',
        forall|k: int, i: int|
            0 <= k < ad.outputs.len() && 0 <= i < ad.outputs[k].len()
                ==> #[trigger] ad.outputs[k][i] != '\0',
        forall|k: int, i: int|
            0 <= k < ad.inputs.len() && 0 <= i < ad.inputs[k].len() ==> #[trigger] ad.inputs[k][i]
                != '\0',
    ensures
        plain_texts(ad),
        wire_safe(OscView::Message(ad.message())),
{
    assert forall|k: int| 0 <= k < ad.outputs.len() implies !(
    #[trigger] ad.outputs[k]).contains('\0') by {
        if ad.outputs[k].contains('\0') {
            let i = choose|i: int| 0 <= i < ad.outputs[k].len() && ad.outputs[k][i] == '\0';
            assert(ad.outputs[k][i] != '\0');
        }
    }
    assert forall|k: int| 0 <= k < ad.inputs.len() implies !(
    #[trigger] ad.inputs[k]).contains('\0') by {
        if ad.inputs[k].contains('\0') {
            let i = choose|i: int| 0 <= i < ad.inputs[k].len() && ad.inputs[k][i] == '\0';
            assert(ad.inputs[k][i] != '\0');
        }
    }
    advertisement_is_wire_safe(ad);
}

} // verus!
