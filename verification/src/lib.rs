//! Peer-to-peer audio and control-voltage messaging: the rules, formats and
//! buffers behind the `gorgon` program.
//!
//! An audio sample travels through the library as the 32 bits of its IEEE-754
//! single-precision pattern. Nothing here computes on the number behind the
//! bits, so a sample that goes in comes out bit for bit.

pub mod text;
pub mod packet;
pub mod jitter;
pub mod layout;
pub mod transport;
pub mod blackhole;
pub mod ring;
pub mod resample;
pub mod config;
pub mod osc_msg;
pub mod network;
pub mod audio;
pub mod cli;
pub mod vdev;
pub mod stream;
pub mod remote;
pub mod mix;
pub mod roster;
pub mod hub;
