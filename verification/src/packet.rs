//! Binary packet format for raw PCM audio transport.
//!
//! Wire layout (all integers big-endian, samples little-endian):
//!   [0..4]   magic:       u32  = 0x474F5244 ("GORD")
//!   [4..8]   seq:         u32  wrapping sequence number
//!   [8..10]  sample_rate: u16  e.g. 48000
//!   [10]     channels:    u8
//!   [11]     frames:      u8   frames per packet
//!   [12..]   samples:     32-bit patterns, len = frames * channels

use vstd::prelude::*;

verus! {

pub const MAGIC: u32 = 0x474F5244;

pub const HEADER_LEN: usize = 12;

/// One block of audio as it travels between peers. `samples` holds the
/// interleaved samples as 32-bit patterns.
pub struct AudioPacket {
    pub seq: u32,
    pub sample_rate: u16,
    pub channels: u8,
    pub frames: u8,
    pub samples: Vec<u32>,
}

/// What an [`AudioPacket`] holds.
pub struct PacketView {
    pub seq: u32,
    pub sample_rate: u16,
    pub channels: u8,
    pub frames: u8,
    pub samples: Seq<u32>,
}

impl View for AudioPacket {
    type V = PacketView;

    open spec fn view(&self) -> PacketView {
        PacketView {
            seq: self.seq,
            sample_rate: self.sample_rate,
            channels: self.channels,
            frames: self.frames,
            samples: self.samples@,
        }
    }
}

/// Four bytes, most significant first.
pub open spec fn be32(v: u32) -> Seq<u8> {
    seq![
        (v as int / 0x1000000) as u8,
        (v as int / 0x10000 % 256) as u8,
        (v as int / 0x100 % 256) as u8,
        (v as int % 256) as u8,
    ]
}

/// Two bytes, most significant first.
pub open spec fn be16(v: u16) -> Seq<u8> {
    seq![(v as int / 256) as u8, (v as int % 256) as u8]
}

/// Four bytes, least significant first.
pub open spec fn le32(v: u32) -> Seq<u8> {
    seq![
        (v as int % 256) as u8,
        (v as int / 0x100 % 256) as u8,
        (v as int / 0x10000 % 256) as u8,
        (v as int / 0x1000000) as u8,
    ]
}

/// The number that four bytes write, `a` the most significant.
pub open spec fn word(a: u8, b: u8, c: u8, d: u8) -> u32 {
    (a * 0x1000000 + b * 0x10000 + c * 0x100 + d) as u32
}

/// The samples on the wire, one behind the other.
pub open spec fn sample_bytes(samples: Seq<u32>) -> Seq<u8>
    decreases samples.len(),
{
    if samples.len() == 0 {
        Seq::empty()
    } else {
        sample_bytes(samples.drop_last()) + le32(samples.last())
    }
}

impl PacketView {
    /// The twelve bytes in front of the samples.
    pub open spec fn header(self) -> Seq<u8> {
        be32(MAGIC) + be32(self.seq) + be16(self.sample_rate) + seq![self.channels, self.frames]
    }

    /// The packet on the wire.
    pub open spec fn wire(self) -> Seq<u8> {
        self.header() + sample_bytes(self.samples)
    }

    /// The packet carries exactly the samples that its header announces.
    pub open spec fn complete(self) -> bool {
        self.samples.len() == self.frames * self.channels
    }
}

/// The length on the wire of a packet of `frames` frames of `channels` channels.
pub open spec fn announced_len(frames: u8, channels: u8) -> int {
    HEADER_LEN + frames * channels * 4
}

/// The sample whose four bytes start at `off`.
pub open spec fn sample_at(buf: Seq<u8>, off: int) -> u32 {
    word(buf[off + 3], buf[off + 2], buf[off + 1], buf[off])
}

/// What a datagram says: a packet where it is long enough for a header, starts
/// with the magic number and holds every sample that the header announces.
/// Bytes behind those samples are passed over.
pub open spec fn reading(buf: Seq<u8>) -> Option<PacketView> {
    if buf.len() < HEADER_LEN || word(buf[0], buf[1], buf[2], buf[3]) != MAGIC || buf.len()
        < announced_len(buf[11], buf[10]) {
        None
    } else {
        Some(
            PacketView {
                seq: word(buf[4], buf[5], buf[6], buf[7]),
                sample_rate: (buf[8] * 256 + buf[9]) as u16,
                channels: buf[10],
                frames: buf[11],
                samples: Seq::new(
                    (buf[11] * buf[10]) as nat,
                    |i: int| sample_at(buf, HEADER_LEN + 4 * i),
                ),
            },
        )
    }
}

/// Puts the four bytes of `v` behind `buf`, most significant first.
fn push_be32(buf: &mut Vec<u8>, v: u32)
    ensures
        final(buf)@ == old(buf)@ + be32(v),
{
    buf.push((v / 0x1000000) as u8);
    buf.push((v / 0x10000 % 256) as u8);
    buf.push((v / 0x100 % 256) as u8);
    buf.push((v % 256) as u8);
    assert(buf@ =~= old(buf)@ + be32(v));
}

/// Puts the four bytes of `v` behind `buf`, least significant first.
fn push_le32(buf: &mut Vec<u8>, v: u32)
    ensures
        final(buf)@ == old(buf)@ + le32(v),
{
    buf.push((v % 256) as u8);
    buf.push((v / 0x100 % 256) as u8);
    buf.push((v / 0x10000 % 256) as u8);
    buf.push((v / 0x1000000) as u8);
    assert(buf@ =~= old(buf)@ + le32(v));
}

/// The number that four bytes write, `a` the most significant.
fn word_of(a: u8, b: u8, c: u8, d: u8) -> (v: u32)
    ensures
        v == word(a, b, c, d),
{
    a as u32 * 0x1000000 + b as u32 * 0x10000 + c as u32 * 0x100 + d as u32
}

/// `frames * channels` samples of four bytes stay far below any address limit.
proof fn announced_len_bound(frames: u8, channels: u8)
    ensures
        0 <= frames * channels <= 65025,
        HEADER_LEN <= announced_len(frames, channels) <= 260112,
{
    assert(0 <= frames * channels <= 65025) by (nonlinear_arith)
        requires
            0 <= frames <= 255,
            0 <= channels <= 255,
    ;
}

impl AudioPacket {
    /// The packet as bytes for the wire.
    pub fn encode(&self) -> (buf: Vec<u8>)
        ensures
            buf@ == self@.wire(),
    {
        proof {
            announced_len_bound(self.frames, self.channels);
        }
        let n: usize = self.frames as usize * self.channels as usize;
        let mut buf: Vec<u8> = Vec::with_capacity(HEADER_LEN + n * 4);
        push_be32(&mut buf, MAGIC);
        push_be32(&mut buf, self.seq);
        buf.push((self.sample_rate / 256) as u8);
        buf.push((self.sample_rate % 256) as u8);
        buf.push(self.channels);
        buf.push(self.frames);
        assert(buf@ =~= self@.header());
        let mut i: usize = 0;
        while i < self.samples.len()
            invariant
                i <= self.samples.len(),
                buf@ == self@.header() + sample_bytes(self.samples@.take(i as int)),
            decreases self.samples.len() - i,
        {
            push_le32(&mut buf, self.samples[i]);
            proof {
                let after = self.samples@.take(i + 1);
                assert(after.drop_last() =~= self.samples@.take(i as int));
                assert(buf@ =~= self@.header() + sample_bytes(after));
            }
            i = i + 1;
        }
        assert(self.samples@.take(i as int) =~= self.samples@);
        buf
    }

    /// Reads a packet off the wire. `None` where the datagram is shorter than a
    /// header, does not start with the magic number, or ends before the last
    /// sample that its header announces.
    pub fn decode(buf: &[u8]) -> (r: Option<AudioPacket>)
        ensures
            match r {
                Some(p) => reading(buf@) == Some(p@),
                None => reading(buf@) is None,
            },
    {
        if buf.len() < HEADER_LEN {
            return None;
        }
        let magic: u32 = word_of(buf[0], buf[1], buf[2], buf[3]);
        if magic != MAGIC {
            return None;
        }
        let seq: u32 = word_of(buf[4], buf[5], buf[6], buf[7]);
        let sample_rate: u16 = buf[8] as u16 * 256 + buf[9] as u16;
        let channels: u8 = buf[10];
        let frames: u8 = buf[11];
        proof {
            announced_len_bound(frames, channels);
        }
        let n: usize = frames as usize * channels as usize;
        let expected: usize = HEADER_LEN + n * 4;
        if buf.len() < expected {
            return None;
        }
        let mut samples: Vec<u32> = Vec::with_capacity(n);
        let mut off: usize = HEADER_LEN;
        let mut i: usize = 0;
        while i < n
            invariant
                i <= n,
                n <= 65025,
                off == HEADER_LEN + 4 * i,
                HEADER_LEN + n * 4 <= buf.len(),
                samples.len() == i,
                forall|k: int|
                    0 <= k < i ==> #[trigger] samples@[k] == sample_at(buf@, HEADER_LEN + 4 * k),
            decreases n - i,
        {
            samples.push(word_of(buf[off + 3], buf[off + 2], buf[off + 1], buf[off]));
            off = off + 4;
            i = i + 1;
        }
        let p = AudioPacket { seq, sample_rate, channels, frames, samples };
        assert(p@.samples =~= reading(buf@)->0.samples);
        Some(p)
    }

    /// The length on the wire of a packet of `frames` frames of `channels` channels.
    pub fn wire_len(frames: u8, channels: u8) -> (n: usize)
        ensures
            n == announced_len(frames, channels),
    {
        proof {
            announced_len_bound(frames, channels);
        }
        HEADER_LEN + frames as usize * channels as usize * 4
    }
}

proof fn be32_word(v: u32)
    ensures
        word(be32(v)[0], be32(v)[1], be32(v)[2], be32(v)[3]) == v,
        word(le32(v)[3], le32(v)[2], le32(v)[1], le32(v)[0]) == v,
{
}

proof fn word_le32(a: u8, b: u8, c: u8, d: u8)
    ensures
        le32(word(a, b, c, d)) =~= seq![d, c, b, a],
        be32(word(a, b, c, d)) =~= seq![a, b, c, d],
{
    let v: int = a * 0x1000000 + b * 0x10000 + c * 0x100 + d;
    assert(0 <= v <= u32::MAX);
    assert(word(a, b, c, d) == v);
    assert(v / 0x1000000 == a);
    assert(v / 0x10000 == a * 256 + b);
    assert(v / 0x100 == a * 0x10000 + b * 256 + c);
    assert((a * 256 + b) % 256 == b);
    assert((a * 0x10000 + b * 256 + c) % 256 == c);
    assert(v % 256 == d);
}

proof fn sample_bytes_at(samples: Seq<u32>, i: int)
    requires
        0 <= i < samples.len(),
    ensures
        sample_bytes(samples).len() == 4 * samples.len(),
        sample_bytes(samples).subrange(4 * i, 4 * i + 4) =~= le32(samples[i]),
    decreases samples.len(),
{
    sample_bytes_len(samples);
    sample_bytes_len(samples.drop_last());
    if i < samples.len() - 1 {
        sample_bytes_at(samples.drop_last(), i);
        let front = sample_bytes(samples.drop_last());
        assert(sample_bytes(samples).subrange(4 * i, 4 * i + 4) =~= front.subrange(
            4 * i,
            4 * i + 4,
        ));
    }
}

proof fn sample_bytes_len(samples: Seq<u32>)
    ensures
        sample_bytes(samples).len() == 4 * samples.len(),
    decreases samples.len(),
{
    if samples.len() > 0 {
        sample_bytes_len(samples.drop_last());
    }
}

/// A packet on the wire is as long as its header and its samples together; one
/// that carries what it announces is `wire_len` bytes long.
pub proof fn wire_length(p: PacketView)
    ensures
        p.wire().len() == HEADER_LEN + 4 * p.samples.len(),
        p.complete() ==> p.wire().len() == announced_len(p.frames, p.channels),
{
    sample_bytes_len(p.samples);
}

/// What is encoded is read back: every field, and every sample bit for bit,
/// whatever bytes follow the packet in the datagram.
pub proof fn decode_inverts_encode(p: PacketView, tail: Seq<u8>)
    requires
        p.complete(),
    ensures
        reading(p.wire() + tail) == Some(p),
{
    wire_length(p);
    let buf = p.wire() + tail;
    announced_len_bound(p.frames, p.channels);
    be32_word(MAGIC);
    be32_word(p.seq);
    let h = p.header();
    assert(h.len() == 12);
    assert(forall|i: int| 0 <= i < 12 ==> buf[i] == h[i]);
    assert(forall|i: int| 0 <= i < 4 ==> h[i] == be32(MAGIC)[i]);
    assert(forall|i: int| 0 <= i < 4 ==> h[4 + i] == be32(p.seq)[i]);
    assert(h[0] == be32(MAGIC)[0] && h[1] == be32(MAGIC)[1] && h[2] == be32(MAGIC)[2] && h[3]
        == be32(MAGIC)[3]);
    assert(h[4] == be32(p.seq)[0] && h[5] == be32(p.seq)[1] && h[6] == be32(p.seq)[2] && h[7]
        == be32(p.seq)[3]);
    assert(h[8] == be16(p.sample_rate)[0] && h[9] == be16(p.sample_rate)[1]);
    assert(h[10] == p.channels && h[11] == p.frames);
    let r = reading(buf)->0;
    assert(r.samples.len() == p.samples.len()) by (nonlinear_arith)
        requires
            r.samples.len() == p.frames * p.channels,
            p.samples.len() == p.frames * p.channels,
    ;
    assert forall|i: int| 0 <= i < p.samples.len() implies r.samples[i] == p.samples[i] by {
        sample_bytes_at(p.samples, i);
        be32_word(p.samples[i]);
        let s = sample_bytes(p.samples);
        let four = s.subrange(4 * i, 4 * i + 4);
        assert(four[0] == s[4 * i] && four[1] == s[4 * i + 1] && four[2] == s[4 * i + 2] && four[3]
            == s[4 * i + 3]);
        assert(buf[HEADER_LEN + 4 * i] == s[4 * i]);
        assert(buf[HEADER_LEN + 4 * i + 1] == s[4 * i + 1]);
        assert(buf[HEADER_LEN + 4 * i + 2] == s[4 * i + 2]);
        assert(buf[HEADER_LEN + 4 * i + 3] == s[4 * i + 3]);
    }
    assert(r.samples =~= p.samples);
}

/// A packet that holds fewer samples than its header announces is refused by
/// whoever receives it.
pub proof fn short_packet_is_refused(p: PacketView)
    requires
        p.samples.len() < p.frames * p.channels,
    ensures
        reading(p.wire()) is None,
{
    wire_length(p);
    let h = p.header();
    assert(h[10] == p.channels && h[11] == p.frames);
    assert(p.wire()[10] == h[10] && p.wire()[11] == h[11]);
    announced_len_bound(p.frames, p.channels);
    assert(announced_len(p.wire()[11], p.wire()[10]) > p.wire().len());
}

/// What is read off the wire is complete, and encodes to the bytes that it was
/// read from.
pub proof fn encode_inverts_decode(buf: Seq<u8>)
    requires
        reading(buf) is Some,
    ensures
        reading(buf)->0.complete(),
        reading(buf)->0.wire() == buf.take(announced_len(buf[11], buf[10])),
{
    let p = reading(buf)->0;
    announced_len_bound(buf[11], buf[10]);
    wire_length(p);
    word_le32(buf[0], buf[1], buf[2], buf[3]);
    word_le32(buf[4], buf[5], buf[6], buf[7]);
    assert(be16(p.sample_rate) =~= seq![buf[8], buf[9]]);
    assert(p.header() =~= buf.take(12));
    let w = p.wire();
    let t = buf.take(announced_len(buf[11], buf[10]));
    assert(p.samples.len() == buf[11] * buf[10]);
    assert forall|j: int| 0 <= j < w.len() implies w[j] == t[j] by {
        if j >= 12 {
            let i = (j - 12) / 4;
            let k = (j - 12) % 4;
            sample_bytes_at(p.samples, i);
            let s = sample_bytes(p.samples);
            let four = s.subrange(4 * i, 4 * i + 4);
            assert(w[j] == s[j - 12]);
            assert(four[k] == s[4 * i + k]);
            word_le32(
                buf[12 + 4 * i + 3],
                buf[12 + 4 * i + 2],
                buf[12 + 4 * i + 1],
                buf[12 + 4 * i],
            );
            assert(k == 0 || k == 1 || k == 2 || k == 3);
        }
    }
    assert(w =~= t);
}

/// The bytes of a packet: the magic number `GORD`, the sequence number and the
/// sample rate, most significant byte first, a byte each for channels and frames,
/// and then every sample in order, least significant byte first. Nothing else.
pub proof fn wire_is_laid_out(p: PacketView)
    ensures
        p.wire().len() == 12 + 4 * p.samples.len(),
        p.wire()[0] == 0x47 && p.wire()[1] == 0x4F && p.wire()[2] == 0x52 && p.wire()[3] == 0x44,
        p.seq == p.wire()[4] * 0x1000000 + p.wire()[5] * 0x10000 + p.wire()[6] * 0x100
            + p.wire()[7],
        p.sample_rate == p.wire()[8] * 0x100 + p.wire()[9],
        p.channels == p.wire()[10],
        p.frames == p.wire()[11],
        forall|i: int|
            0 <= i < p.samples.len() ==> #[trigger] p.samples[i] == p.wire()[12 + 4 * i]
                + p.wire()[13 + 4 * i] * 0x100 + p.wire()[14 + 4 * i] * 0x10000 + p.wire()[15 + 4
                * i] * 0x1000000,
{
    wire_length(p);
    be32_word(p.seq);
    let h = p.header();
    let w = p.wire();
    assert(h.len() == 12);
    assert(forall|i: int| 0 <= i < 12 ==> w[i] == h[i]);
    assert(h[0] == be32(MAGIC)[0] && h[1] == be32(MAGIC)[1] && h[2] == be32(MAGIC)[2] && h[3]
        == be32(MAGIC)[3]);
    assert(h[4] == be32(p.seq)[0] && h[5] == be32(p.seq)[1] && h[6] == be32(p.seq)[2] && h[7]
        == be32(p.seq)[3]);
    assert(h[8] == be16(p.sample_rate)[0] && h[9] == be16(p.sample_rate)[1]);
    assert forall|i: int| 0 <= i < p.samples.len() implies #[trigger] p.samples[i] == w[12 + 4 * i]
        + w[13 + 4 * i] * 0x100 + w[14 + 4 * i] * 0x10000 + w[15 + 4 * i] * 0x1000000 by {
        sample_bytes_at(p.samples, i);
        be32_word(p.samples[i]);
        let s = sample_bytes(p.samples);
        let four = s.subrange(4 * i, 4 * i + 4);
        assert(four[0] == s[4 * i] && four[1] == s[4 * i + 1] && four[2] == s[4 * i + 2] && four[3]
            == s[4 * i + 3]);
        assert(w[12 + 4 * i] == s[4 * i] && w[13 + 4 * i] == s[4 * i + 1] && w[14 + 4 * i] == s[4
            * i + 2] && w[15 + 4 * i] == s[4 * i + 3]);
    }
}

/// A datagram is read as a packet exactly where it starts with the magic number
/// and is long enough for the samples that it announces; and what is read is what
/// its bytes say.
pub proof fn reading_is_what_the_bytes_say(buf: Seq<u8>)
    ensures
        reading(buf) is Some <==> {
            &&& buf.len() >= 12
            &&& buf[0] == 0x47 && buf[1] == 0x4F && buf[2] == 0x52 && buf[3] == 0x44
            &&& buf.len() >= 12 + 4 * (buf[10] * buf[11])
        },
        reading(buf) matches Some(p) ==> {
            &&& p.seq == buf[4] * 0x1000000 + buf[5] * 0x10000 + buf[6] * 0x100 + buf[7]
            &&& p.sample_rate == buf[8] * 0x100 + buf[9]
            &&& p.channels == buf[10]
            &&& p.frames == buf[11]
            &&& p.samples.len() == buf[10] * buf[11]
            &&& forall|i: int|
                0 <= i < p.samples.len() ==> #[trigger] p.samples[i] == buf[12 + 4 * i] + buf[13
                    + 4 * i] * 0x100 + buf[14 + 4 * i] * 0x10000 + buf[15 + 4 * i] * 0x1000000
        },
{
    announced_len_bound(buf[11], buf[10]);
    assert(buf[11] * buf[10] == buf[10] * buf[11]) by (nonlinear_arith);
    word_le32(buf[0], buf[1], buf[2], buf[3]);
    if word(buf[0], buf[1], buf[2], buf[3]) == MAGIC {
        assert(be32(MAGIC) =~= seq![buf[0], buf[1], buf[2], buf[3]]);
        assert(be32(MAGIC)[0] == 0x47 && be32(MAGIC)[1] == 0x4F && be32(MAGIC)[2] == 0x52
            && be32(MAGIC)[3] == 0x44);
        assert(seq![buf[0], buf[1], buf[2], buf[3]][0] == buf[0]);
        assert(seq![buf[0], buf[1], buf[2], buf[3]][1] == buf[1]);
        assert(seq![buf[0], buf[1], buf[2], buf[3]][2] == buf[2]);
        assert(seq![buf[0], buf[1], buf[2], buf[3]][3] == buf[3]);
    }
}

/// A packet of `frames` frames of `channels` channels takes twelve bytes and four
/// for each sample.
pub proof fn announced_length_is_header_and_samples(frames: u8, channels: u8)
    ensures
        announced_len(frames, channels) == 12 + 4 * (frames * channels),
{
    announced_len_bound(frames, channels);
}

} // verus!
