//! What a machine is configured with.

use vstd::prelude::*;

verus! {

/// An IP address: the four or sixteen bytes of it as a number.
#[derive(Clone, Copy, PartialEq, Eq, Structural, Debug)]
pub enum Ip {
    V4(u32),
    V6(u128),
}

/// Where a datagram goes to or comes from.
#[derive(Clone, Copy, PartialEq, Eq, Structural, Debug)]
pub struct Addr {
    pub ip: Ip,
    pub port: u16,
}

/// The port that audio is streamed on where the configuration names none.
pub fn default_stream_port() -> (p: u16)
    ensures
        p == 9001,
{
    9001
}

/// Local audio device settings. All fields are optional; missing values fall
/// back to CLI flags and then to device defaults / maximums.
pub struct Audio {
    /// Input device name (substring match).
    pub input_device: Option<String>,
    /// Output device name (substring match).
    pub output_device: Option<String>,
    /// Number of input channels to capture (default: device maximum).
    pub input_channels: Option<u16>,
    /// Number of output channels to open (default: device maximum).
    pub output_channels: Option<u16>,
    /// Playout buffer depth in milliseconds: how much audio to hold before
    /// playing, trading latency for resilience to network jitter (default: 40).
    pub jitter_ms: Option<u16>,
    /// Loopback device that a Mac multiplexes a group onto (substring match,
    /// default: BlackHole).
    pub mac_device: Option<String>,
}

/// A machine that audio and control messages are exchanged with.
pub struct Peer {
    pub name: String,
    pub addr: Addr,
    /// Local input channels (0-based) to capture and send to this peer, in
    /// order. The packet sent to this peer has `send.len()` channels.
    /// Defaults to all captured input channels.
    pub send: Option<Vec<u16>>,
    /// Routing for audio received from this peer: `(incoming_channel,
    /// my_output_channel)` pairs. Multiple incoming channels may sum into the
    /// same output. Defaults to a positional mapping (incoming channel i ->
    /// output i).
    pub recv: Option<Vec<(u16, u16)>>,
}

/// A named signal that a machine shares, and the local channel it is on.
pub struct ExposedPort {
    pub name: String,
    pub channel: u16,
}

/// The signals that a machine shares with its groups.
pub struct Remote {
    /// Signals that others can record, captured from local inputs.
    pub outputs: Vec<ExposedPort>,
    /// Signals that others can play into, sent to local outputs.
    pub inputs: Vec<ExposedPort>,
}

/// A group and the roster of its members.
pub struct Group {
    pub name: String,
    pub members: Vec<Ip>,
}

pub struct Config {
    pub bind_port: u16,
    pub stream_port: u16,
    pub audio: Audio,
    pub peers: Vec<Peer>,
    /// How this machine is shown to others (default: its host name).
    pub device_name: Option<String>,
    pub remote: Remote,
    pub groups: Vec<Group>,
}

/// The names of a list of ports, in order.
pub open spec fn port_views(ports: Seq<ExposedPort>) -> Seq<Seq<char>> {
    ports.map_values(|p: ExposedPort| p.name@)
}

} // verus!
