//! The OSC messages gorgon uses.
//!
//! Address convention:
//!   /cv/<channel>   f32  : continuous control value, conventionally 0.0 - 1.0
//!   /gate/<channel> i32  : 0 = off, 1 = on
//!   /note/<channel> i32  : MIDI note number (0-127)
//!   /gorgon/adv/<group>  : what a group member shares

use vstd::prelude::*;
use crate::config::{port_views, ExposedPort, Remote};
use crate::text::{
    hex_padded, hex_reading, hex_round_trip, join, joined, parse_hex, push_hex_padded,
    push_signed, signed_decimal, strip_prefix, views,
};

verus! {

/// An argument of an OSC message. Numbers with a fractional part are held as the
/// bits of their IEEE-754 patterns. Gorgon reads the first six kinds, and passes
/// the others on as they are.
pub enum Arg {
    Int(i32),
    Float(u32),
    Text(String),
    Long(i64),
    Double(u64),
    Bool(bool),
    Blob(Vec<u8>),
    /// Seconds since 1900 began, and fractions of a second.
    Time(u32, u32),
    Char(char),
    /// Red, green, blue and alpha.
    Color(u8, u8, u8, u8),
    /// Port, status and two bytes of data.
    Midi(u8, u8, u8, u8),
    Array(Vec<Arg>),
    Nil,
    Inf,
}

/// What an [`Arg`] holds.
pub enum ArgView {
    Int(i32),
    Float(u32),
    Text(Seq<char>),
    Long(i64),
    Double(u64),
    Bool(bool),
    Blob(Seq<u8>),
    Time(u32, u32),
    Char(char),
    Color(u8, u8, u8, u8),
    Midi(u8, u8, u8, u8),
    Array(Seq<ArgView>),
    Nil,
    Inf,
}

impl ArgView {
    /// The argument is of a kind that gorgon reads.
    pub open spec fn is_common(self) -> bool {
        self is Int || self is Float || self is Text || self is Long || self is Double
            || self is Bool
    }
}

pub struct Message {
    pub addr: String,
    pub args: Vec<Arg>,
}

/// What a [`Message`] holds.
pub struct MessageView {
    pub addr: Seq<char>,
    pub args: Seq<ArgView>,
}

pub enum Packet {
    Message(Message),
    /// Packets to be applied at a time: seconds since 1900 began, and fractions
    /// of a second.
    Bundle((u32, u32), Vec<Packet>),
}

/// What a [`Packet`] holds.
pub enum OscView {
    Message(MessageView),
    Bundle((u32, u32), Seq<OscView>),
}

/// The view of an argument.
pub open spec fn arg_view(a: Arg) -> ArgView
    decreases a,
{
    match a {
        Arg::Int(v) => ArgView::Int(v),
        Arg::Float(v) => ArgView::Float(v),
        Arg::Text(v) => ArgView::Text(v@),
        Arg::Long(v) => ArgView::Long(v),
        Arg::Double(v) => ArgView::Double(v),
        Arg::Bool(v) => ArgView::Bool(v),
        Arg::Blob(v) => ArgView::Blob(v@),
        Arg::Time(s, f) => ArgView::Time(s, f),
        Arg::Char(v) => ArgView::Char(v),
        Arg::Color(r, g, b, a) => ArgView::Color(r, g, b, a),
        Arg::Midi(p, s, d, e) => ArgView::Midi(p, s, d, e),
        Arg::Array(c) => ArgView::Array(
            Seq::new(
                c@.len(),
                |i: int|
                    if 0 <= i < c@.len() {
                        arg_view(c@[i])
                    } else {
                        ArgView::Nil
                    },
            ),
        ),
        Arg::Nil => ArgView::Nil,
        Arg::Inf => ArgView::Inf,
    }
}

impl View for Arg {
    type V = ArgView;

    open spec fn view(&self) -> ArgView {
        arg_view(*self)
    }
}

/// The views of a list of arguments.
pub open spec fn arg_views(args: Seq<Arg>) -> Seq<ArgView> {
    args.map_values(|a: Arg| a@)
}

/// An array holds the views of its arguments.
pub proof fn array_view(c: Vec<Arg>)
    ensures
        arg_view(Arg::Array(c)) == ArgView::Array(arg_views(c@)),
{
    assert(arg_view(Arg::Array(c))->Array_0 =~= arg_views(c@));
}

impl View for Message {
    type V = MessageView;

    open spec fn view(&self) -> MessageView {
        MessageView { addr: self.addr@, args: arg_views(self.args@) }
    }
}

/// The view of a packet.
pub open spec fn packet_view(p: Packet) -> OscView
    decreases p, 0nat,
{
    match p {
        Packet::Message(m) => OscView::Message(m@),
        Packet::Bundle(t, c) => OscView::Bundle(t, packet_views(c@, c@.len())),
    }
}

/// The views of the first `n` packets of a list.
pub open spec fn packet_views(c: Seq<Packet>, n: nat) -> Seq<OscView>
    decreases c, n,
{
    if n == 0 || n > c.len() {
        Seq::empty()
    } else {
        packet_views(c, (n - 1) as nat).push(packet_view(c[n - 1]))
    }
}

impl View for Packet {
    type V = OscView;

    open spec fn view(&self) -> OscView {
        packet_view(*self)
    }
}

/// A group member's self-description, learned from its periodic advertisement.
/// The named ports are listed in ordinal order: ordinal `i` is the device's
/// channel `i`. The originating IP comes from the receiving socket, not the
/// message, so a spoofed body can't impersonate another member's audio.
#[derive(Debug, Clone, PartialEq)]
pub struct Advertisement {
    pub group: String,
    pub node_id: u128,
    pub device_name: String,
    pub outputs: Vec<String>,
    pub inputs: Vec<String>,
}

/// What an [`Advertisement`] holds.
pub struct AdvertisementView {
    pub group: Seq<char>,
    pub node_id: u128,
    pub device_name: Seq<char>,
    pub outputs: Seq<Seq<char>>,
    pub inputs: Seq<Seq<char>>,
}

impl View for Advertisement {
    type V = AdvertisementView;

    open spec fn view(&self) -> AdvertisementView {
        AdvertisementView {
            group: self.group@,
            node_id: self.node_id,
            device_name: self.device_name@,
            outputs: views(self.outputs@),
            inputs: views(self.inputs@),
        }
    }
}

/// The low 32 bits of a count, read as a signed number: the count itself up to
/// `i32::MAX`.
pub open spec fn count_arg(n: nat) -> i32 {
    let low = n % 0x1_0000_0000;
    if low < 0x8000_0000 {
        low as i32
    } else {
        (low - 0x1_0000_0000) as i32
    }
}

/// Texts as message arguments.
pub open spec fn text_args(names: Seq<Seq<char>>) -> Seq<ArgView> {
    names.map_values(|n: Seq<char>| ArgView::Text(n))
}

impl AdvertisementView {
    /// The arguments of the message that says this: the id as 32 hexadecimal
    /// digits, the device name, how many outputs and inputs, and their names in
    /// order.
    pub open spec fn args(self) -> Seq<ArgView> {
        seq![
            ArgView::Text(hex_padded(self.node_id as nat, 32)),
            ArgView::Text(self.device_name),
            ArgView::Int(count_arg(self.outputs.len())),
            ArgView::Int(count_arg(self.inputs.len())),
        ] + text_args(self.outputs) + text_args(self.inputs)
    }

    /// The message that says this.
    pub open spec fn message(self) -> MessageView {
        MessageView { addr: "/gorgon/adv/"@ + self.group, args: self.args() }
    }
}

/// A list of `n` texts starts at argument `from`.
pub open spec fn texts_at(args: Seq<ArgView>, from: int, n: int) -> bool {
    &&& from + n <= args.len()
    &&& forall|i: int| from <= i < from + n ==> (#[trigger] args[i]) is Text
}

/// The `n` texts that start at argument `from`.
pub open spec fn texts(args: Seq<ArgView>, from: int, n: int) -> Seq<Seq<char>> {
    Seq::new(n as nat, |i: int| args[from + i]->Text_0)
}

/// The arguments are those of an advertisement: an id in hexadecimal, a device
/// name, two counts that are not negative, and at least as many names.
pub open spec fn advertises(args: Seq<ArgView>) -> bool {
    &&& args.len() >= 4
    &&& args[0] is Text
    &&& hex_reading(args[0]->Text_0) is Some
    &&& args[1] is Text
    &&& args[2] is Int
    &&& args[2]->Int_0 >= 0
    &&& args[3] is Int
    &&& args[3]->Int_0 >= 0
    &&& texts_at(args, 4, args[2]->Int_0 as int)
    &&& texts_at(args, 4 + args[2]->Int_0, args[3]->Int_0 as int)
}

/// What a packet advertises: nothing, unless it is a message to
/// `/gorgon/adv/<group>` with the arguments of an advertisement. Further
/// arguments are passed over.
pub open spec fn advertised(p: OscView) -> Option<AdvertisementView> {
    match p {
        OscView::Bundle(_, _) => None,
        OscView::Message(m) => {
            let prefix = "/gorgon/adv/"@;
            if prefix.is_prefix_of(m.addr) && m.addr.len() > prefix.len() && advertises(m.args) {
                Some(
                    AdvertisementView {
                        group: m.addr.skip(prefix.len() as int),
                        node_id: hex_reading(m.args[0]->Text_0)->0,
                        device_name: m.args[1]->Text_0,
                        outputs: texts(m.args, 4, m.args[2]->Int_0 as int),
                        inputs: texts(m.args, 4 + m.args[2]->Int_0, m.args[3]->Int_0 as int),
                    },
                )
            } else {
                None
            }
        },
    }
}

/// The low 32 bits of a count, read as a signed number.
fn count_of(n: usize) -> (r: i32)
    ensures
        r == count_arg(n as nat),
{
    let low: u64 = n as u64 % 0x1_0000_0000;
    if low < 0x8000_0000 {
        low as i32
    } else {
        (low as i64 - 0x1_0000_0000) as i32
    }
}

/// Puts the names of `ports` behind `args`.
fn push_names(args: &mut Vec<Arg>, ports: &Vec<ExposedPort>)
    ensures
        arg_views(final(args)@) == arg_views(old(args)@) + text_args(port_views(ports@)),
{
    let ghost before = args@;
    let mut i: usize = 0;
    while i < ports.len()
        invariant
            i <= ports.len(),
            arg_views(args@) =~= arg_views(before) + text_args(port_views(ports@)).take(i as int),
        decreases ports.len() - i,
    {
        let name = ports[i].name.clone();
        let ghost prev = args@;
        args.push(Arg::Text(name));
        proof {
            let names = text_args(port_views(ports@));
            assert(arg_views(args@) =~= arg_views(prev).push(ArgView::Text(name@)));
            assert(names.take(i + 1) =~= names.take(i as int).push(names[i as int]));
            assert(names[i as int] == ArgView::Text(name@));
        }
        i = i + 1;
    }
}

/// Builds a member advertisement: `/gorgon/adv/<group>` carrying the member's
/// stable id, device name, and its exposed output/input signal names in order.
pub fn advertisement(group: &str, node_id: u128, device_name: &str, remote: &Remote) -> (p: Packet)
    ensures
        p@ == OscView::Message(
            (AdvertisementView {
                group: group@,
                node_id,
                device_name: device_name@,
                outputs: port_views(remote.outputs@),
                inputs: port_views(remote.inputs@),
            }).message(),
        ),
{
    let mut id = String::new();
    push_hex_padded(&mut id, node_id, 32);
    let mut args: Vec<Arg> = Vec::new();
    args.push(Arg::Text(id));
    args.push(Arg::Text(device_name.to_owned()));
    args.push(Arg::Int(count_of(remote.outputs.len())));
    args.push(Arg::Int(count_of(remote.inputs.len())));
    push_names(&mut args, &remote.outputs);
    push_names(&mut args, &remote.inputs);
    let mut addr = String::new();
    addr.append("/gorgon/adv/");
    addr.append(group);
    proof {
        let ad = AdvertisementView {
            group: group@,
            node_id,
            device_name: device_name@,
            outputs: port_views(remote.outputs@),
            inputs: port_views(remote.inputs@),
        };
        assert(arg_views(args@) =~= ad.args());
        assert(addr@ =~= "/gorgon/adv/"@ + group@);
    }
    Packet::Message(Message { addr, args })
}

/// The `n` texts that start at argument `from`; `None` where there are not so
/// many arguments or one of them is no text.
fn take_names(args: &Vec<Arg>, from: usize, n: usize) -> (r: Option<Vec<String>>)
    requires
        from <= args@.len(),
    ensures
        match r {
            Some(v) => {
                &&& texts_at(arg_views(args@), from as int, n as int)
                &&& views(v@) == texts(arg_views(args@), from as int, n as int)
            },
            None => !texts_at(arg_views(args@), from as int, n as int),
        },
{
    if n > args.len() - from {
        return None;
    }
    let len: usize = args.len();
    let mut v: Vec<String> = Vec::new();
    let mut i: usize = 0;
    while i < n
        invariant
            i <= n,
            len == args@.len(),
            from + n <= len,
            views(v@) =~= texts(arg_views(args@), from as int, i as int),
            forall|k: int| from <= k < from + i ==> (#[trigger] arg_views(args@)[k]) is Text,
        decreases n - i,
    {
        match &args[from + i] {
            Arg::Text(name) => {
                let name = name.clone();
                let ghost prev = v@;
                v.push(name);
                proof {
                    let a = arg_views(args@);
                    assert(a[from + i] == ArgView::Text(name@));
                    assert(views(v@) =~= views(prev).push(name@));
                    assert(texts(a, from as int, i + 1) =~= texts(a, from as int, i as int).push(
                        name@,
                    ));
                }
            },
            _ => {
                assert(!(arg_views(args@)[from + i] is Text));
                return None;
            },
        }
        i = i + 1;
    }
    Some(v)
}

/// The text of argument `i`.
fn text_arg(args: &Vec<Arg>, i: usize) -> (r: Option<String>)
    requires
        i < args@.len(),
    ensures
        match r {
            Some(s) => args@[i as int]@ == ArgView::Text(s@),
            None => !(args@[i as int]@ is Text),
        },
{
    match &args[i] {
        Arg::Text(s) => Some(s.clone()),
        _ => None,
    }
}

/// The count that argument `i` gives: an integer that is not negative.
fn count_at(args: &Vec<Arg>, i: usize) -> (r: Option<usize>)
    requires
        i < args@.len(),
    ensures
        match r {
            Some(n) => {
                &&& args@[i as int]@ is Int
                &&& args@[i as int]@->Int_0 == n
            },
            None => !(args@[i as int]@ is Int) || args@[i as int]@->Int_0 < 0,
        },
{
    match &args[i] {
        Arg::Int(n) => if *n >= 0 {
            Some(*n as usize)
        } else {
            None
        },
        _ => None,
    }
}

/// Parses a `/gorgon/adv/<group>` advertisement. Returns `None` for any other
/// address or a malformed body, so it's safe to run on every OSC packet.
pub fn parse_advertisement(packet: &Packet) -> (r: Option<Advertisement>)
    ensures
        match r {
            Some(ad) => advertised(packet@) == Some(ad@),
            None => advertised(packet@) is None,
        },
{
    let m = match packet {
        Packet::Message(m) => m,
        Packet::Bundle(_, _) => {
            return None;
        },
    };
    let group = match strip_prefix(m.addr.as_str(), "/gorgon/adv/") {
        Some(g) => g,
        None => {
            return None;
        },
    };
    proof {
        assert("/gorgon/adv/"@.is_prefix_of(m.addr@));
        assert(m.addr@.skip("/gorgon/adv/"@.len() as int) =~= group@);
    }
    if group.as_str().is_empty() {
        return None;
    }
    let args = &m.args;
    if args.len() < 4 {
        return None;
    }
    let ghost a = arg_views(args@);
    assert(a[0] == args@[0]@ && a[1] == args@[1]@ && a[2] == args@[2]@ && a[3] == args@[3]@);
    let node_id: u128 = match text_arg(args, 0) {
        Some(s) => match parse_hex(s.as_str()) {
            Some(n) => n,
            None => {
                return None;
            },
        },
        None => {
            return None;
        },
    };
    let device_name = match text_arg(args, 1) {
        Some(s) => s,
        None => {
            return None;
        },
    };
    let n_out: usize = match count_at(args, 2) {
        Some(n) => n,
        None => {
            return None;
        },
    };
    let n_in: usize = match count_at(args, 3) {
        Some(n) => n,
        None => {
            return None;
        },
    };
    let outputs = match take_names(args, 4, n_out) {
        Some(v) => v,
        None => {
            return None;
        },
    };
    let inputs = match take_names(args, 4 + n_out, n_in) {
        Some(v) => v,
        None => {
            return None;
        },
    };
    Some(Advertisement { group, node_id, device_name, outputs, inputs })
}

/// A message to `<prefix><channel>` with one argument.
fn control(prefix: &str, channel: &str, arg: Arg) -> (p: Packet)
    ensures
        p@ == OscView::Message(
            MessageView { addr: prefix@ + channel@, args: seq![arg@] },
        ),
{
    let mut addr = String::new();
    addr.append(prefix);
    addr.append(channel);
    let mut args: Vec<Arg> = Vec::new();
    args.push(arg);
    proof {
        assert(addr@ =~= prefix@ + channel@);
        assert(arg_views(args@) =~= seq![arg@]);
    }
    Packet::Message(Message { addr, args })
}

/// A control value, given by the bits of its single-precision pattern.
pub fn cv(channel: &str, value: u32) -> (p: Packet)
    ensures
        p@ == OscView::Message(
            MessageView { addr: "/cv/"@ + channel@, args: seq![ArgView::Float(value)] },
        ),
{
    control("/cv/", channel, Arg::Float(value))
}

/// A gate that goes on or off.
pub fn gate(channel: &str, on: bool) -> (p: Packet)
    ensures
        p@ == OscView::Message(
            MessageView {
                addr: "/gate/"@ + channel@,
                args: seq![
                    ArgView::Int(
                        if on {
                            1
                        } else {
                            0
                        },
                    ),
                ],
            },
        ),
{
    control(
        "/gate/",
        channel,
        Arg::Int(
            if on {
                1
            } else {
                0
            },
        ),
    )
}

/// A MIDI note number.
pub fn note(channel: &str, midi_note: i32) -> (p: Packet)
    ensures
        p@ == OscView::Message(
            MessageView { addr: "/note/"@ + channel@, args: seq![ArgView::Int(midi_note)] },
        ),
{
    control("/note/", channel, Arg::Int(midi_note))
}

/// A member that advertises itself to a group is understood by whoever hears it:
/// group, id, device name and port names arrive as they were sent, in order.
pub proof fn advertisement_round_trip(ad: AdvertisementView)
    requires
        ad.group.len() > 0,
        ad.outputs.len() <= i32::MAX,
        ad.inputs.len() <= i32::MAX,
    ensures
        advertised(OscView::Message(ad.message())) == Some(ad),
{
    let m = ad.message();
    let prefix = "/gorgon/adv/"@;
    let a = m.args;
    let no = ad.outputs.len() as int;
    hex_round_trip(ad.node_id);
    assert(prefix.is_prefix_of(m.addr));
    assert(m.addr.skip(prefix.len() as int) =~= ad.group);
    assert(a[0] == ArgView::Text(hex_padded(ad.node_id as nat, 32)));
    assert(a[2] == ArgView::Int(no as i32));
    assert(a[3] == ArgView::Int(ad.inputs.len() as i32));
    assert forall|i: int| 4 <= i < 4 + no implies (#[trigger] a[i]) is Text by {
        assert(a[i] == text_args(ad.outputs)[i - 4]);
    }
    assert forall|i: int| 4 + no <= i < 4 + no + ad.inputs.len() implies (
    #[trigger] a[i]) is Text by {
        assert(a[i] == text_args(ad.inputs)[i - 4 - no]);
    }
    let r = advertised(OscView::Message(m))->0;
    assert(r.outputs =~= ad.outputs);
    assert(r.inputs =~= ad.inputs);
}

/// Control messages never pass for advertisements, whatever their channel.
pub proof fn control_messages_advertise_nothing(channel: Seq<char>, args: Seq<ArgView>)
    ensures
        advertised(
            OscView::Message(MessageView { addr: "/cv/"@ + channel, args }),
        ) is None,
        advertised(
            OscView::Message(MessageView { addr: "/gate/"@ + channel, args }),
        ) is None,
        advertised(
            OscView::Message(MessageView { addr: "/note/"@ + channel, args }),
        ) is None,
{
    reveal_strlit("/gorgon/adv/");
    reveal_strlit("/cv/");
    reveal_strlit("/gate/");
    reveal_strlit("/note/");
    let prefix = "/gorgon/adv/"@;
    let (c, g, n) = ("/cv/"@ + channel, "/gate/"@ + channel, "/note/"@ + channel);
    assert(prefix[1] != c[1]);
    assert(prefix[2] != g[2]);
    assert(prefix[1] != n[1]);
}

/// A number with a fractional part, by the bits of its pattern.
#[derive(Clone, Copy, PartialEq, Eq, Structural, Debug)]
pub enum FloatBits {
    Single(u32),
    Double(u64),
}

/// `show` answers for every number, and always the same.
pub open spec fn shows_numbers<F: Fn(FloatBits) -> String>(show: F) -> bool {
    &&& forall|b: FloatBits| #[trigger] call_requires(show, (b,))
    &&& forall|b: FloatBits, s: String, t: String|
        #![trigger call_ensures(show, (b,), s), call_ensures(show, (b,), t)]
        call_ensures(show, (b,), s) && call_ensures(show, (b,), t) ==> s@ == t@
}

/// How `show` writes a number.
pub open spec fn shown<F: Fn(FloatBits) -> String>(show: F, b: FloatBits) -> Seq<char> {
    (choose|s: String| call_ensures(show, (b,), s))@
}

/// How an argument is written in a log.
pub open spec fn arg_text<F: Fn(FloatBits) -> String>(show: F, a: ArgView) -> Seq<char> {
    match a {
        ArgView::Float(v) => shown(show, FloatBits::Single(v)),
        ArgView::Double(v) => shown(show, FloatBits::Double(v)),
        ArgView::Int(v) => signed_decimal(v as int),
        ArgView::Long(v) => signed_decimal(v as int),
        ArgView::Text(v) => "\""@ + v + "\""@,
        ArgView::Bool(v) => if v {
            "true"@
        } else {
            "false"@
        },
        _ => "?"@,
    }
}

/// How a message is written in a log: its address and its arguments.
pub open spec fn message_text<F: Fn(FloatBits) -> String>(show: F, m: MessageView) -> Seq<char> {
    m.addr + " ["@ + joined(m.args.map_values(|a: ArgView| arg_text(show, a)), ", "@) + "]"@
}

/// How a packet is written in a log.
pub open spec fn packet_text<F: Fn(FloatBits) -> String>(show: F, p: OscView) -> Seq<char>
    decreases p, 0nat,
{
    match p {
        OscView::Message(m) => message_text(show, m),
        OscView::Bundle(_, c) => "bundle("@ + joined(packet_texts(show, c, c.len()), " | "@)
            + ")"@,
    }
}

/// How the first `n` packets of a list are written.
pub open spec fn packet_texts<F: Fn(FloatBits) -> String>(
    show: F,
    c: Seq<OscView>,
    n: nat,
) -> Seq<Seq<char>>
    decreases c, n,
{
    if n == 0 || n > c.len() {
        Seq::empty()
    } else {
        packet_texts(show, c, (n - 1) as nat).push(packet_text(show, c[n - 1]))
    }
}

/// Describes one argument for logging.
fn fmt_arg<F: Fn(FloatBits) -> String>(a: &Arg, show: &F) -> (s: String)
    requires
        shows_numbers(*show),
    ensures
        s@ == arg_text(*show, a@),
{
    match a {
        Arg::Float(v) => (*show)(FloatBits::Single(*v)),
        Arg::Double(v) => (*show)(FloatBits::Double(*v)),
        Arg::Int(v) => {
            let mut s = String::new();
            push_signed(&mut s, *v as i64);
            assert(s@ =~= signed_decimal(*v as int));
            s
        },
        Arg::Long(v) => {
            let mut s = String::new();
            push_signed(&mut s, *v);
            assert(s@ =~= signed_decimal(*v as int));
            s
        },
        Arg::Text(v) => {
            let mut s = String::new();
            s.append("\"");
            s.append(v.as_str());
            s.append("\"");
            assert(s@ =~= "\""@ + v@ + "\""@);
            s
        },
        Arg::Bool(v) => if *v {
            "true".to_owned()
        } else {
            "false".to_owned()
        },
        _ => "?".to_owned(),
    }
}

/// The view of one packet of a list.
pub proof fn packet_views_at(c: Seq<Packet>, n: nat, i: int)
    requires
        0 <= i < n <= c.len(),
    ensures
        packet_views(c, n).len() == n,
        packet_views(c, n)[i] == c[i]@,
    decreases n,
{
    packet_views_len(c, n);
    packet_views_len(c, (n - 1) as nat);
    if i < n - 1 {
        packet_views_at(c, (n - 1) as nat, i);
    }
}

/// There is one view for each packet.
pub proof fn packet_views_len(c: Seq<Packet>, n: nat)
    requires
        n <= c.len(),
    ensures
        packet_views(c, n).len() == n,
    decreases n,
{
    if n > 0 {
        packet_views_len(c, (n - 1) as nat);
    }
}

/// Describes an incoming packet in a human-readable way for logging. `show`
/// writes the numbers that have a fractional part.
pub fn describe<F: Fn(FloatBits) -> String>(packet: &Packet, show: &F) -> (s: String)
    requires
        shows_numbers(*show),
    ensures
        s@ == packet_text(*show, packet@),
    decreases packet,
{
    let mut s = String::new();
    match packet {
        Packet::Message(m) => {
            let mut parts: Vec<String> = Vec::new();
            let mut i: usize = 0;
            let ghost all = m@.args.map_values(|a: ArgView| arg_text(*show, a));
            while i < m.args.len()
                invariant
                    i <= m.args@.len(),
                    shows_numbers(*show),
                    all == m@.args.map_values(|a: ArgView| arg_text(*show, a)),
                    views(parts@) =~= all.take(i as int),
                decreases m.args.len() - i,
            {
                let part = fmt_arg(&m.args[i], show);
                let ghost prev = parts@;
                parts.push(part);
                proof {
                    assert(m@.args[i as int] == m.args@[i as int]@);
                    assert(views(parts@) =~= views(prev).push(part@));
                    assert(all.take(i + 1) =~= all.take(i as int).push(all[i as int]));
                }
                i = i + 1;
            }
            assert(views(parts@) =~= all);
            s.append(m.addr.as_str());
            s.append(" [");
            s.append(join(parts.as_slice(), ", ").as_str());
            s.append("]");
            assert(s@ =~= message_text(*show, m@));
        },
        Packet::Bundle(_, c) => {
            let mut parts: Vec<String> = Vec::new();
            let mut i: usize = 0;
            let ghost all = packet_views(c@, c@.len());
            proof {
                packet_views_len(c@, c@.len());
            }
            while i < c.len()
                invariant
                    i <= c@.len(),
                    packet is Bundle,
                    packet->Bundle_1 == *c,
                    shows_numbers(*show),
                    all == packet_views(c@, c@.len()),
                    all.len() == c@.len(),
                    views(parts@) =~= packet_texts(*show, all, i as nat),
                decreases c.len() - i,
            {
                proof {
                    packet_views_at(c@, c@.len(), i as int);
                    assert(decreases_to!(*packet => packet->Bundle_1));
                    vstd::std_specs::vec::axiom_vec_index_decreases(*c, i as int);
                    assert(decreases_to!(*packet => c@[i as int]));
                }
                let part = describe(&c[i], show);
                let ghost prev = parts@;
                parts.push(part);
                proof {
                    assert(views(parts@) =~= views(prev).push(part@));
                }
                i = i + 1;
            }
            s.append("bundle(");
            s.append(join(parts.as_slice(), " | ").as_str());
            s.append(")");
            assert(s@ =~= packet_text(*show, packet@));
        },
    }
    s
}

/// A count is sent as it is up to the greatest number that fits, and modulo the
/// numbers that there are beyond that.
pub proof fn counts_are_sent_as_they_are(n: nat)
    ensures
        n <= i32::MAX ==> count_arg(n) == n,
        (n - count_arg(n)) % 0x1_0000_0000 == 0,
{
}

/// What a member sends of itself: a message to its group's address, with its id in
/// 32 hexadecimal digits, its device name, how many outputs and inputs it has, then
/// the names of its outputs and behind them those of its inputs, each in order.
pub proof fn advertisement_is_laid_out(ad: AdvertisementView)
    ensures
        ({
            let m = ad.message();
            let n = ad.outputs.len() as int;
            &&& m.addr == seq!['/', 'g', 'o', 'r', 'g', 'o', 'n', '/', 'a', 'd', 'v', '/']
                + ad.group
            &&& m.args.len() == 4 + n + ad.inputs.len()
            &&& m.args[0] == ArgView::Text(hex_padded(ad.node_id as nat, 32))
            &&& m.args[1] == ArgView::Text(ad.device_name)
            &&& m.args[2] == ArgView::Int(count_arg(ad.outputs.len()))
            &&& m.args[3] == ArgView::Int(count_arg(ad.inputs.len()))
            &&& forall|i: int|
                0 <= i < n ==> m.args[4 + i] == ArgView::Text(#[trigger] ad.outputs[i])
            &&& forall|i: int|
                0 <= i < ad.inputs.len() ==> m.args[4 + n + i] == ArgView::Text(
                    #[trigger] ad.inputs[i],
                )
        }),
{
    reveal_strlit("/gorgon/adv/");
    assert("/gorgon/adv/"@ =~= seq!['/', 'g', 'o', 'r', 'g', 'o', 'n', '/', 'a', 'd', 'v', '/']);
    let n = ad.outputs.len() as int;
    let a = ad.args();
    assert forall|i: int| 0 <= i < n implies a[4 + i] == ArgView::Text(
        #[trigger] ad.outputs[i],
    ) by {
        assert(a[4 + i] == text_args(ad.outputs)[i]);
    }
    assert forall|i: int| 0 <= i < ad.inputs.len() implies a[4 + n + i] == ArgView::Text(
        #[trigger] ad.inputs[i],
    ) by {
        assert(a[4 + n + i] == text_args(ad.inputs)[i]);
    }
}

/// The argument at `i` is there and is a text.
pub open spec fn has_text(args: Seq<ArgView>, i: int) -> bool {
    i < args.len() && args[i] is Text
}

/// A message passes for an advertisement exactly where it goes to a group's address,
/// its first argument is a hexadecimal number, the second a text, the third and the
/// fourth are counts that are not negative, and as many texts follow as the counts
/// say together. What is understood is what stands there.
pub proof fn advertisement_is_what_the_arguments_say(m: MessageView)
    ensures
        ({
            let ad = advertised(OscView::Message(m));
            let prefix = seq!['/', 'g', 'o', 'r', 'g', 'o', 'n', '/', 'a', 'd', 'v', '/'];
            let a = m.args;
            let n_out = a[2]->Int_0 as int;
            let n_in = a[3]->Int_0 as int;
            &&& ad is Some <==> {
                &&& m.addr.len() > 12
                &&& m.addr.take(12) == prefix
                &&& has_text(a, 0) && has_text(a, 1)
                &&& hex_reading(a[0]->Text_0) is Some
                &&& a.len() >= 4
                &&& a[2] is Int && a[3] is Int
                &&& n_out >= 0 && n_in >= 0
                &&& forall|i: int| 4 <= i < 4 + n_out + n_in ==> #[trigger] has_text(a, i)
            }
            &&& ad matches Some(ad) ==> {
                &&& m.addr == prefix + ad.group
                &&& hex_reading(a[0]->Text_0) == Some(ad.node_id)
                &&& a[1] == ArgView::Text(ad.device_name)
                &&& ad.outputs.len() == n_out
                &&& ad.inputs.len() == n_in
                &&& forall|i: int|
                    0 <= i < n_out ==> a[4 + i] == ArgView::Text(#[trigger] ad.outputs[i])
                &&& forall|i: int|
                    0 <= i < n_in ==> a[4 + n_out + i] == ArgView::Text(#[trigger] ad.inputs[i])
            }
        }),
{
    reveal_strlit("/gorgon/adv/");
    let prefix = seq!['/', 'g', 'o', 'r', 'g', 'o', 'n', '/', 'a', 'd', 'v', '/'];
    assert("/gorgon/adv/"@ =~= prefix);
    let a = m.args;
    let n_out = a[2]->Int_0 as int;
    let n_in = a[3]->Int_0 as int;
    let ad = advertised(OscView::Message(m));
    if ad is Some {
        assert(m.addr.take(12) =~= prefix);
        assert(m.addr =~= prefix + ad->0.group);
        assert forall|i: int| 4 <= i < 4 + n_out + n_in implies #[trigger] has_text(a, i) by {
            assert(a[i] is Text);
        }
        assert forall|i: int| 0 <= i < n_out implies a[4 + i] == ArgView::Text(
            #[trigger] ad->0.outputs[i],
        ) by {
            assert(has_text(a, 4 + i));
        }
        assert forall|i: int| 0 <= i < n_in implies a[4 + n_out + i] == ArgView::Text(
            #[trigger] ad->0.inputs[i],
        ) by {
            assert(has_text(a, 4 + n_out + i));
        }
    }
    if m.addr.len() > 12 && m.addr.take(12) == prefix && has_text(a, 0) && has_text(a, 1)
        && hex_reading(a[0]->Text_0) is Some && a.len() >= 4 && a[2] is Int && a[3] is Int && n_out
        >= 0 && n_in >= 0 && forall|i: int|
        4 <= i < 4 + n_out + n_in ==> #[trigger] has_text(a, i) {
        assert(prefix =~= m.addr.subrange(0, 12));
        assert forall|i: int| 4 <= i < 4 + n_out + n_in implies (#[trigger] a[i]) is Text by {
            assert(has_text(a, i));
        }
        if n_out + n_in > 0 {
            assert(has_text(a, 3 + n_out + n_in));
        }
        if n_out > 0 {
            assert(has_text(a, 3 + n_out));
        }
    }
}

/// A bundle advertises nothing.
pub proof fn bundle_advertises_nothing(t: (u32, u32), c: Seq<OscView>)
    ensures
        advertised(OscView::Bundle(t, c)) is None,
{
}

/// How an argument is described: whole numbers in decimal, texts in quotation marks,
/// truth values in words, numbers with a fractional part as `show` writes them, and
/// everything else as a question mark.
pub proof fn arguments_are_described_by_kind<F: Fn(FloatBits) -> String>(show: F, a: ArgView)
    requires
        shows_numbers(show),
    ensures
        a matches ArgView::Int(v) ==> arg_text(show, a) == signed_decimal(v as int),
        a matches ArgView::Long(v) ==> arg_text(show, a) == signed_decimal(v as int),
        a matches ArgView::Text(v) ==> arg_text(show, a) == seq!['"'] + v + seq!['"'],
        a matches ArgView::Bool(v) ==> arg_text(show, a) == if v {
            seq!['t', 'r', 'u', 'e']
        } else {
            seq!['f', 'a', 'l', 's', 'e']
        },
        a matches ArgView::Float(v) ==> forall|s: String| #[trigger]
            call_ensures(show, (FloatBits::Single(v),), s) ==> arg_text(show, a) == s@,
        a matches ArgView::Double(v) ==> forall|s: String| #[trigger]
            call_ensures(show, (FloatBits::Double(v),), s) ==> arg_text(show, a) == s@,
        !a.is_common() ==> arg_text(show, a) == seq!['?'],
        a.is_common() <==> a is Int || a is Float || a is Text || a is Long || a is Double || a is Bool,
{
    reveal_strlit("\"");
    reveal_strlit("true");
    reveal_strlit("false");
    reveal_strlit("?");
    assert("\""@ =~= seq!['"']);
    assert("true"@ =~= seq!['t', 'r', 'u', 'e']);
    assert("false"@ =~= seq!['f', 'a', 'l', 's', 'e']);
    assert("?"@ =~= seq!['?']);
}

/// A message is described by its address and, in brackets and with commas between
/// them, all its arguments in order; a bundle by all its packets, with bars between
/// them.
pub proof fn packets_are_described_in_full<F: Fn(FloatBits) -> String>(
    show: F,
    m: MessageView,
    t: (u32, u32),
    c: Seq<OscView>,
)
    ensures
        packet_text(show, OscView::Message(m)) == m.addr + seq![' ', '['] + joined(
            Seq::new(m.args.len(), |i: int| arg_text(show, m.args[i])),
            seq![',', ' '],
        ) + seq![']'],
        packet_text(show, OscView::Bundle(t, c)) == seq!['b', 'u', 'n', 'd', 'l', 'e', '(']
            + joined(
            Seq::new(c.len(), |i: int| packet_text(show, c[i])),
            seq![' ', '|', ' '],
        ) + seq![')'],
{
    reveal_strlit(" [");
    reveal_strlit(", ");
    reveal_strlit("]");
    reveal_strlit("bundle(");
    reveal_strlit(" | ");
    reveal_strlit(")");
    assert(" ["@ =~= seq![' ', '[']);
    assert(", "@ =~= seq![',', ' ']);
    assert("]"@ =~= seq![']']);
    assert("bundle("@ =~= seq!['b', 'u', 'n', 'd', 'l', 'e', '(']);
    assert(" | "@ =~= seq![' ', '|', ' ']);
    assert(")"@ =~= seq![')']);
    assert(m.args.map_values(|a: ArgView| arg_text(show, a)) =~= Seq::new(
        m.args.len(),
        |i: int| arg_text(show, m.args[i]),
    ));
    texts_in_order(show, c, c.len());
    assert(packet_texts(show, c, c.len()) =~= Seq::new(
        c.len(),
        |i: int| packet_text(show, c[i]),
    ));
}

proof fn texts_in_order<F: Fn(FloatBits) -> String>(show: F, c: Seq<OscView>, n: nat)
    requires
        n <= c.len(),
    ensures
        packet_texts(show, c, n).len() == n,
        forall|i: int|
            0 <= i < n ==> #[trigger] packet_texts(show, c, n)[i] == packet_text(show, c[i]),
    decreases n,
{
    if n > 0 {
        texts_in_order(show, c, (n - 1) as nat);
    }
}

/// What an argument is taken for is what it holds, kind by kind and field by field;
/// an array is taken for its arguments, in order.
pub proof fn arguments_are_what_they_hold(a: Arg)
    ensures
        match a {
            Arg::Int(v) => a@ == ArgView::Int(v),
            Arg::Float(v) => a@ == ArgView::Float(v),
            Arg::Text(v) => a@ == ArgView::Text(v@),
            Arg::Long(v) => a@ == ArgView::Long(v),
            Arg::Double(v) => a@ == ArgView::Double(v),
            Arg::Bool(v) => a@ == ArgView::Bool(v),
            Arg::Blob(v) => a@ == ArgView::Blob(v@),
            Arg::Time(s, f) => a@ == ArgView::Time(s, f),
            Arg::Char(v) => a@ == ArgView::Char(v),
            Arg::Color(r, g, b, t) => a@ == ArgView::Color(r, g, b, t),
            Arg::Midi(p, s, d, e) => a@ == ArgView::Midi(p, s, d, e),
            Arg::Array(c) => a@ is Array && a@->Array_0.len() == c@.len() && forall|i: int|
                0 <= i < c@.len() ==> #[trigger] a@->Array_0[i] == c@[i]@,
            Arg::Nil => a@ is Nil,
            Arg::Inf => a@ is Inf,
        },
{
    if let Arg::Array(c) = a {
        array_view(c);
    }
}

/// What a packet is taken for is what it holds: a message its address and its
/// arguments in order, a bundle its time and its packets in order.
pub proof fn packets_are_what_they_hold(p: Packet)
    ensures
        match p {
            Packet::Message(m) => {
                &&& p@ is Message
                &&& p@->Message_0.addr == m.addr@
                &&& p@->Message_0.args.len() == m.args@.len()
                &&& forall|i: int|
                    0 <= i < m.args@.len() ==> #[trigger] p@->Message_0.args[i] == m.args@[i]@
            },
            Packet::Bundle(t, c) => {
                &&& p@ is Bundle
                &&& p@->Bundle_0 == t
                &&& p@->Bundle_1.len() == c@.len()
                &&& forall|i: int|
                    0 <= i < c@.len() ==> #[trigger] p@->Bundle_1[i] == c@[i]@
            },
        },
{
    if let Packet::Bundle(t, c) = p {
        packet_views_len(c@, c@.len());
        assert forall|i: int| 0 <= i < c@.len() implies #[trigger] p@->Bundle_1[i]
            == c@[i]@ by {
            packet_views_at(c@, c@.len(), i);
        }
    }
}

/// What an advertisement is taken for is what it holds, names in order.
pub proof fn advertisements_are_what_they_hold(ad: Advertisement)
    ensures
        ad@.group == ad.group@,
        ad@.node_id == ad.node_id,
        ad@.device_name == ad.device_name@,
        ad@.outputs.len() == ad.outputs@.len(),
        ad@.inputs.len() == ad.inputs@.len(),
        forall|i: int|
            0 <= i < ad.outputs@.len() ==> #[trigger] ad@.outputs[i] == ad.outputs@[i]@,
        forall|i: int| 0 <= i < ad.inputs@.len() ==> #[trigger] ad@.inputs[i] == ad.inputs@[i]@,
{
}

} // verus!
