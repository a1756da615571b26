# gorgon

P2P audio and CV messenger. Sends raw PCM audio between audio interfaces, shares
named signals with a group as virtual audio devices, and exchanges OSC
control-voltage messages, with no central server.

- `src/` is the library, verified with [Verus](https://github.com/verus-lang/verus):
  packet format, jitter buffering and playout, channel routing and mixing,
  resampling, lanes on a shared loopback device, OSC messages, group membership.
  Every function states what it returns in `ensures`; public proof functions state
  what holds across functions.
- `tests/` runs the library, with the outside crates that it calls.
- `app/` is the program: command line, configuration file, audio devices, sockets,
  and the floating-point arithmetic on samples and rates.

Samples travel through the library as 32-bit patterns. Where samples are added or
interpolated, the caller hands in the arithmetic.

What the library takes on trust, each with its contract beside it: the ends of a
`ringbuf` ring (`src/ring.rs`), reading and writing OSC with `rosc`
and `bytemuck::cast`, which gives its numbers back their patterns
(`src/network.rs`), and two functions of std (`String::push` in `src/text.rs`,
`String::from_utf8_lossy` in `src/remote.rs`).
