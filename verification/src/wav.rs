//! PCM sample source: validates a canonical uncompressed wave
//! container held as bytes, exposes its format description, and
//! streams the sample payload as inter-channel sample groups and as
//! windows of groups. Opening the file and reading its bytes is the
//! caller's concern.

use vstd::arithmetic::power2::pow2;
use vstd::prelude::*;

verus! {

/// Little-endian value of a whole byte sequence.
pub open spec fn le_val(s: Seq<u8>) -> nat
    decreases s.len(),
{
    if s.len() == 0 {
        0
    } else {
        s[0] as nat + 256 * le_val(s.drop_first())
    }
}

/// 16-bit little-endian value at `off`.
pub open spec fn le16(s: Seq<u8>, off: int) -> int {
    s[off] + 0x100 * s[off + 1]
}

/// 32-bit little-endian value at `off`.
pub open spec fn le32(s: Seq<u8>, off: int) -> int {
    s[off] + 0x100 * s[off + 1] + 0x10000 * s[off + 2] + 0x1000000 * s[off + 3]
}

/// 32-bit big-endian value at `off`.
pub open spec fn be32(s: Seq<u8>, off: int) -> int {
    s[off + 3] + 0x100 * s[off + 2] + 0x10000 * s[off + 1] + 0x1000000 * s[off]
}

/// The unsigned value `v` of `nbytes` bytes reread as a signed
/// integer in two's complement.
pub open spec fn signed_of(v: nat, nbytes: nat) -> int
    recommends
        nbytes >= 1,
{
    if v < pow2((8 * nbytes - 1) as nat) {
        v as int
    } else {
        v as int - pow2(8 * nbytes)
    }
}

/// Represents a PCM WAV file held as bytes.
pub struct PCMWaveInfo {
    pub riff_header: RiffChunk,
    pub fmt_header: PCMWaveFormatChunk,
    pub data_chunks: Vec<PCMWaveDataChunk>,
}

/// Represents a RIFF chunk from a WAV file.
///
/// The RIFF chunk is the first 12 bytes of a WAV file.
#[derive(Clone, Copy, Debug, PartialEq, Eq, Structural)]
pub struct RiffChunk {
    pub file_size: u32,
    pub is_big_endian: bool,
}

/// Represents a format chunk from a WAV file: the declared channel
/// count, sample rate, and bits per sample.
#[derive(Clone, Copy, Debug, PartialEq, Eq, Structural)]
pub struct PCMWaveFormatChunk {
    pub num_channels: u16,
    pub samp_rate: u32,
    pub bps: u16,
}

/// Represents a data chunk from a WAV file: its declared byte length,
/// the format it is decoded under, the payload bytes, and a cursor
/// marking how far the samples have been consumed.
pub struct PCMWaveDataChunk {
    pub size_bytes: u32,
    pub format: PCMWaveFormatChunk,
    pub data: Vec<u8>,
    pub pos: usize,
}

/// Represents a windowing view over a data chunk: each pull gathers
/// up to `chunk_size` inter-channel sample groups.
pub struct PCMWaveDataChunkWindow {
    chunk_size: usize,
    data_chunk: PCMWaveDataChunk,
}

/// Represents a WAV container reader.
pub struct WaveReader;

#[derive(Clone, Copy, Debug, PartialEq, Eq, Structural)]
pub enum WaveReaderError {
    NotRiffError,
    NotWaveError,
    NotPCMError,
    ChunkTypeError,
    DataAlignmentError,
    ReadError,
}

impl PCMWaveFormatChunk {
    /// The supported integer profile: at least one channel, a bit
    /// depth that is a whole number of bytes up to eight, and a block
    /// alignment that fits its 16-bit header field.
    pub open spec fn wf(self) -> bool {
        &&& self.num_channels >= 1
        &&& self.bps >= 8
        &&& self.bps <= 64
        &&& self.bps % 8 == 0
        &&& self.num_channels * self.bps <= 65535
    }

    /// Bytes of one sample of one channel.
    pub open spec fn bytes_per_sample(self) -> nat {
        (self.bps / 8) as nat
    }

    /// Bytes of one inter-channel sample group.
    pub open spec fn block_align_spec(self) -> nat {
        self.num_channels as nat * self.bytes_per_sample()
    }

    /// Bytes of one second of audio.
    pub open spec fn byte_rate_spec(self) -> nat {
        self.samp_rate as nat * self.block_align_spec()
    }

    /// Get or calculate the byte rate of this PCM WAV file.
    pub fn byte_rate(&self) -> (r: u32)
        requires
            self.wf(),
            self.samp_rate * self.num_channels * self.bps <= u32::MAX,
        ensures
            r == self.byte_rate_spec(),
    {
        proof {
            let s = self.samp_rate as int;
            let c = self.num_channels as int;
            let b = self.bps as int;
            let t = b / 8;
            assert(b == 8 * t);
            assert(s * c * b == (s * (c * t)) * 8) by (nonlinear_arith)
                requires
                    b == 8 * t,
            ;
            vstd::arithmetic::div_mod::lemma_div_multiples_vanish(s * (c * t), 8);
            assert(s * c <= s * c * b) by (nonlinear_arith)
                requires
                    b >= 1,
                    s >= 0,
                    c >= 0,
            ;
        }
        self.samp_rate * (self.num_channels as u32) * (self.bps as u32) / 8
    }

    /// Get or calculate the block alignment of this PCM WAV file.
    ///
    /// The *block alignment* is the size of one *inter-channel*
    /// sample in bytes. An *inter-channel sample* is a sample with
    /// all of its channels collated together.
    pub fn block_align(&self) -> (r: u16)
        requires
            self.wf(),
        ensures
            r == self.block_align_spec(),
    {
        proof {
            let c = self.num_channels as int;
            let b = self.bps as int;
            let t = b / 8;
            assert(b == 8 * t);
            assert(c * b == (c * t) * 8) by (nonlinear_arith)
                requires
                    b == 8 * t,
            ;
            vstd::arithmetic::div_mod::lemma_div_multiples_vanish(c * t, 8);
        }
        self.num_channels * self.bps / 8
    }
}

/// Relies on byteorder's `LittleEndian::read_u32`: the unsigned
/// 32-bit value of four little-endian bytes.
#[verifier::external_body]
fn read_u32_le_at(buffer: &Vec<u8>, offset: usize) -> (r: u32)
    requires
        offset + 4 <= buffer@.len(),
    ensures
        r == le32(buffer@, offset as int),
{
    <byteorder::LittleEndian as byteorder::ByteOrder>::read_u32(&buffer[offset..offset + 4])
}

/// Relies on byteorder's `LittleEndian::read_u16`: the unsigned
/// 16-bit value of two little-endian bytes.
#[verifier::external_body]
fn read_u16_le_at(buffer: &Vec<u8>, offset: usize) -> (r: u16)
    requires
        offset + 2 <= buffer@.len(),
    ensures
        r == le16(buffer@, offset as int),
{
    <byteorder::LittleEndian as byteorder::ByteOrder>::read_u16(&buffer[offset..offset + 2])
}

/// Relies on byteorder's `LittleEndian::read_int`: the sign-extended
/// value of `nbytes` little-endian bytes.
#[verifier::external_body]
fn read_int_le_at(buffer: &Vec<u8>, offset: usize, nbytes: usize) -> (r: i64)
    requires
        1 <= nbytes <= 8,
        offset + nbytes <= buffer@.len(),
    ensures
        r == signed_of(
            le_val(buffer@.subrange(offset as int, offset as int + nbytes)),
            nbytes as nat,
        ),
{
    <byteorder::LittleEndian as byteorder::ByteOrder>::read_int(
        &buffer[offset..offset + nbytes],
        nbytes,
    )
}

/// The unsigned 32-bit value of four big-endian bytes.
fn read_u32_be_at(buffer: &Vec<u8>, offset: usize) -> (r: u32)
    requires
        offset + 4 <= buffer@.len(),
    ensures
        r == be32(buffer@, offset as int),
{
    let buffer_len = buffer.len();
    proof {
        assert(offset + 4 <= buffer_len);
    }
    let b0 = buffer[offset] as u32;
    let b1 = buffer[offset + 1] as u32;
    let b2 = buffer[offset + 2] as u32;
    let b3 = buffer[offset + 3] as u32;
    b0 * 0x1000000 + b1 * 0x10000 + b2 * 0x100 + b3
}

/// One decoded sample: a single byte passes through unsigned (the
/// 8-bit profile), wider samples are little-endian two's complement
/// sized to the declared depth.
pub open spec fn sample_spec(data: Seq<u8>, off: nat, nbytes: nat) -> int
    recommends
        nbytes >= 1,
{
    if nbytes == 1 {
        data[off as int] as int
    } else {
        signed_of(le_val(data.subrange(off as int, off as int + nbytes)), nbytes)
    }
}

/// One decoded inter-channel sample group starting at byte `off`: one
/// sample per channel, in channel order.
pub open spec fn group_spec(data: Seq<u8>, fmt: PCMWaveFormatChunk, off: nat) -> Seq<i64> {
    Seq::new(
        fmt.num_channels as nat,
        |c: int|
            (sample_spec(
                data,
                (off + c * fmt.bytes_per_sample()) as nat,
                fmt.bytes_per_sample(),
            ) as i64),
    )
}

proof fn lemma_rem_zero_iff(len: nat, pos: nat, ba: nat)
    requires
        ba > 0,
        pos <= len,
    ensures
        (((len - pos) as nat / ba == 0) <==> (len - pos < ba)),
{
    let x = (len - pos) as int;
    let d = ba as int;
    vstd::arithmetic::div_mod::lemma_fundamental_div_mod(x, d);
    vstd::arithmetic::div_mod::lemma_mod_bound(x, d);
    vstd::arithmetic::div_mod::lemma_div_pos_is_pos(x, d);
    let q = x / d;
    if q == 0 {
        assert(x == d * 0 + x % d);
        assert(d * 0 == 0) by (nonlinear_arith);
    } else {
        assert(d * q >= d) by (nonlinear_arith)
            requires
                q >= 1,
                d > 0,
        ;
    }
}

proof fn lemma_groups_available(len: nat, pos: nat, ba: nat, i: nat)
    requires
        ba > 0,
        pos <= len,
        i < ((len - pos) as nat) / ba,
    ensures
        len - (pos + i * ba) >= ba,
        pos + i * ba + ba <= len,
{
    let x = (len - pos) as int;
    let d = ba as int;
    let q = x / d;
    vstd::arithmetic::div_mod::lemma_fundamental_div_mod(x, d);
    vstd::arithmetic::div_mod::lemma_mod_bound(x, d);
    assert((i as int + 1) * d <= q * d) by (nonlinear_arith)
        requires
            i as int + 1 <= q,
            d > 0,
    ;
    assert(q * d <= x) by (nonlinear_arith)
        requires
            x == d * q + x % d,
            x % d >= 0,
    ;
    assert((i as int + 1) * d == i as int * d + d) by (nonlinear_arith);
}

impl PCMWaveDataChunk {
    /// A usable sample stream: a supported format and a cursor inside
    /// the payload.
    pub open spec fn wf(self) -> bool {
        &&& self.format.wf()
        &&& self.pos <= self.data@.len()
    }

    /// Whole inter-channel sample groups left before the cursor
    /// reaches the end of the payload.
    pub open spec fn remaining(self) -> nat {
        ((self.data@.len() - self.pos) as nat) / self.format.block_align_spec()
    }

    /// Pull one inter-channel sample group: one sample per channel,
    /// little-endian, sized and sign-extended to the declared bit
    /// depth. A short tail of payload bytes ends the stream rather
    /// than yielding a padded group.
    pub fn next(&mut self) -> (r: Option<Vec<i64>>)
        requires
            old(self).wf(),
        ensures
            final(self).wf(),
            final(self).size_bytes == old(self).size_bytes,
            final(self).format == old(self).format,
            final(self).data@ == old(self).data@,
            old(self).remaining() == 0 ==> (r is None && final(self).pos == old(self).pos),
            old(self).remaining() > 0 ==> (r matches Some(g) && g@ == group_spec(
                old(self).data@,
                old(self).format,
                old(self).pos as nat,
            ) && final(self).pos == old(self).pos + old(self).format.block_align_spec()),
    {
        let ba = self.format.block_align() as usize;
        proof {
            assert(self.format.block_align_spec() >= 1) by (nonlinear_arith)
                requires
                    self.format.num_channels as nat >= 1,
                    self.format.bytes_per_sample() >= 1,
                    self.format.block_align_spec() == self.format.num_channels as nat
                        * self.format.bytes_per_sample(),
            ;
            lemma_rem_zero_iff(self.data@.len(), self.pos as nat, self.format.block_align_spec());
        }
        if self.data.len() - self.pos < ba {
            return None;
        }
        let n = (self.format.bps / 8) as usize;
        let ch = self.format.num_channels as usize;
        let ghost fmt = self.format;
        let ghost data = self.data@;
        let ghost pos0 = self.pos as nat;
        let mut group: Vec<i64> = Vec::new();
        let mut c: usize = 0;
        proof {
            assert(group_spec(data, fmt, pos0).take(0) =~= Seq::<i64>::empty());
        }
        while c < ch
            invariant
                self.wf(),
                self == old(self),
                fmt == self.format,
                data == self.data@,
                pos0 == self.pos as nat,
                n == fmt.bytes_per_sample(),
                1 <= n <= 8,
                ch == fmt.num_channels as usize,
                ba == fmt.block_align_spec(),
                self.data@.len() - self.pos >= ba,
                c <= ch,
                group@ == group_spec(data, fmt, pos0).take(c as int),
            decreases ch - c,
        {
            proof {
                assert((c + 1) * n <= ch * n) by (nonlinear_arith)
                    requires
                        c + 1 <= ch,
                        n >= 0,
                ;
                assert(ch * n == ba);
                assert((c + 1) * n == c * n + n) by (nonlinear_arith);
            }
            // Observing the length as a machine word bounds the index sums.
            let _payload_len = self.data.len();
            let off = self.pos + c * n;
            let s: i64 = if n == 1 {
                self.data[off] as i64
            } else {
                read_int_le_at(&self.data, off, n)
            };
            proof {
                assert(s == sample_spec(data, (pos0 + c * n) as nat, n as nat));
                assert(group_spec(data, fmt, pos0)[c as int] == sample_spec(
                    data,
                    (pos0 + c * fmt.bytes_per_sample()) as nat,
                    fmt.bytes_per_sample(),
                ) as i64);
                assert(group_spec(data, fmt, pos0).take(c + 1) =~= group_spec(
                    data,
                    fmt,
                    pos0,
                ).take(c as int).push(group_spec(data, fmt, pos0)[c as int]));
            }
            group.push(s);
            c = c + 1;
        }
        proof {
            assert(group_spec(data, fmt, pos0).take(ch as int) =~= group_spec(data, fmt, pos0));
        }
        self.pos = self.pos + ba;
        Some(group)
    }

    /// A windowing view of one second of audio per pull: one window
    /// holds `samp_rate` inter-channel groups, which is
    /// `channel count x bytes per sample x sample rate` payload
    /// bytes.
    pub fn chunks_byte_rate(self) -> (r: PCMWaveDataChunkWindow)
        requires
            self.wf(),
        ensures
            r.spec_data_chunk() == self,
            r.spec_chunk_size() == self.format.samp_rate as usize,
            r.wf(),
    {
        PCMWaveDataChunkWindow { chunk_size: self.format.samp_rate as usize, data_chunk: self }
    }

    /// A windowing view of a caller-chosen fixed group count per
    /// pull.
    pub fn chunks(self, chunk_size: usize) -> (r: PCMWaveDataChunkWindow)
        requires
            self.wf(),
        ensures
            r.spec_data_chunk() == self,
            r.spec_chunk_size() == chunk_size,
            r.wf(),
    {
        PCMWaveDataChunkWindow { chunk_size, data_chunk: self }
    }
}

impl PCMWaveDataChunkWindow {
    pub closed spec fn spec_chunk_size(&self) -> usize {
        self.chunk_size
    }

    pub closed spec fn spec_data_chunk(&self) -> PCMWaveDataChunk {
        self.data_chunk
    }

    pub open spec fn wf(&self) -> bool {
        self.spec_data_chunk().wf()
    }

    /// Pull the next window: up to `chunk_size` inter-channel sample
    /// groups. At the end of the stream a shorter, non-empty window
    /// is returned; a pull that finds no group at all signals the
    /// stream exhausted. (A window size of zero always yields an
    /// empty window.)
    pub fn next(&mut self) -> (r: Option<Vec<Vec<i64>>>)
        requires
            old(self).wf(),
        ensures
            final(self).wf(),
            final(self).spec_chunk_size() == old(self).spec_chunk_size(),
            final(self).spec_data_chunk().format == old(self).spec_data_chunk().format,
            final(self).spec_data_chunk().data@ == old(self).spec_data_chunk().data@,
            final(self).spec_data_chunk().size_bytes == old(self).spec_data_chunk().size_bytes,
            ({
                let rem = old(self).spec_data_chunk().remaining();
                let cs = old(self).spec_chunk_size();
                let take = if cs <= rem {
                    cs as nat
                } else {
                    rem
                };
                let data = old(self).spec_data_chunk().data@;
                let fmt = old(self).spec_data_chunk().format;
                let pos0 = old(self).spec_data_chunk().pos as nat;
                let ba = fmt.block_align_spec();
                if rem == 0 && cs > 0 {
                    r is None && final(self).spec_data_chunk().pos == old(
                        self,
                    ).spec_data_chunk().pos
                } else {
                    r matches Some(w) && w@.len() == take && (forall|i: int|
                        0 <= i < take ==> #[trigger] w@[i]@ == group_spec(
                            data,
                            fmt,
                            (pos0 + i * ba) as nat,
                        )) && final(self).spec_data_chunk().pos == pos0 + take * ba
                }
            }),
    {
        let ba = self.data_chunk.format.block_align() as usize;
        proof {
            assert(self.data_chunk.format.block_align_spec() >= 1) by (nonlinear_arith)
                requires
                    self.data_chunk.format.num_channels as nat >= 1,
                    self.data_chunk.format.bytes_per_sample() >= 1,
                    self.data_chunk.format.block_align_spec()
                        == self.data_chunk.format.num_channels as nat
                        * self.data_chunk.format.bytes_per_sample(),
            ;
        }
        let rem = (self.data_chunk.data.len() - self.data_chunk.pos) / ba;
        let take = if self.chunk_size <= rem {
            self.chunk_size
        } else {
            rem
        };
        if take == 0 && self.chunk_size > 0 {
            proof {
                assert(0 * ba == 0) by (nonlinear_arith);
            }
            return None;
        }
        let ghost fmt = self.data_chunk.format;
        let ghost data = self.data_chunk.data@;
        let ghost pos0 = self.data_chunk.pos as nat;
        let mut buffer: Vec<Vec<i64>> = Vec::new();
        let mut i: usize = 0;
        proof {
            assert(0 * ba == 0) by (nonlinear_arith);
            let x = (self.data_chunk.data@.len() - self.data_chunk.pos) as int;
            let d = ba as int;
            vstd::arithmetic::div_mod::lemma_fundamental_div_mod(x, d);
            vstd::arithmetic::div_mod::lemma_mod_bound(x, d);
            assert(rem as int * d <= x) by (nonlinear_arith)
                requires
                    x == d * (rem as int) + x % d,
                    x % d >= 0,
            ;
        }
        while i < take
            invariant
                self.data_chunk.wf(),
                self.spec_chunk_size() == old(self).spec_chunk_size(),
                fmt == self.data_chunk.format,
                data == self.data_chunk.data@,
                self.data_chunk.size_bytes == old(self).spec_data_chunk().size_bytes,
                ba == fmt.block_align_spec(),
                ba >= 1,
                pos0 + rem * ba <= data.len(),
                rem == ((data.len() - pos0) as nat) / fmt.block_align_spec(),
                take <= rem,
                i <= take,
                self.data_chunk.pos == pos0 + i * ba,
                buffer@.len() == i,
                forall|t: int|
                    0 <= t < i ==> #[trigger] buffer@[t]@ == group_spec(
                        data,
                        fmt,
                        (pos0 + t * ba) as nat,
                    ),
            decreases take - i,
        {
            proof {
                lemma_groups_available(data.len(), pos0, ba as nat, i as nat);
                assert((i + 1) * ba == i * ba + ba) by (nonlinear_arith);
                lemma_rem_zero_iff(
                    data.len(),
                    (pos0 + i * ba) as nat,
                    fmt.block_align_spec(),
                );
            }
            let g = self.data_chunk.next();
            match g {
                Some(gr) => {
                    buffer.push(gr);
                },
                None => {
                    proof {
                        assert(false);
                    }
                },
            }
            i = i + 1;
        }
        Some(buffer)
    }
}

/// Tag of the identification block: `RIFF`, or `RIFX` for the
/// big-endian variant.
pub open spec fn riff_tag_ok(s: Seq<u8>, off: int) -> bool {
    &&& s[off] == 0x52
    &&& s[off + 1] == 0x49
    &&& s[off + 2] == 0x46
    &&& (s[off + 3] == 0x46 || s[off + 3] == 0x58)
}

/// The identification tag's last byte distinguishes the big-endian
/// container variant.
pub open spec fn riff_is_big_endian(s: Seq<u8>, off: int) -> bool {
    s[off + 3] == 0x58
}

/// The declared container type must be `WAVE`.
pub open spec fn wave_tag_ok(s: Seq<u8>, off: int) -> bool {
    &&& s[off + 8] == 0x57
    &&& s[off + 9] == 0x41
    &&& s[off + 10] == 0x56
    &&& s[off + 11] == 0x45
}

/// The declared file size, read in the endianness the tag states.
pub open spec fn riff_file_size(s: Seq<u8>, off: int) -> int {
    if riff_is_big_endian(s, off) {
        be32(s, off + 4)
    } else {
        le32(s, off + 4)
    }
}

/// The format-description block's tag must be `fmt ` (with a trailing
/// space).
pub open spec fn fmt_tag_ok(s: Seq<u8>, off: int) -> bool {
    le32(s, off) == 0x20746D66
}

/// The declared sample encoding must be integer PCM.
pub open spec fn fmt_is_pcm(s: Seq<u8>, off: int) -> bool {
    le16(s, off + 8) == 1
}

/// The format description as declared by the block at `off`.
pub open spec fn parsed_fmt(s: Seq<u8>, off: int) -> PCMWaveFormatChunk {
    PCMWaveFormatChunk {
        num_channels: le16(s, off + 10) as u16,
        samp_rate: le32(s, off + 12) as u32,
        bps: le16(s, off + 22) as u16,
    }
}

/// The payload block's tag must be `data`.
pub open spec fn data_tag_ok(s: Seq<u8>, off: int) -> bool {
    le32(s, off) == 0x61746164
}

/// A container whose identification, format-description, and payload
/// blocks all validate.
pub open spec fn container_ok(s: Seq<u8>) -> bool {
    &&& s.len() >= 44
    &&& riff_tag_ok(s, 0)
    &&& wave_tag_ok(s, 0)
    &&& fmt_tag_ok(s, 12)
    &&& fmt_is_pcm(s, 12)
    &&& parsed_fmt(s, 12).wf()
    &&& data_tag_ok(s, 36)
}

impl WaveReader {
    /// Validate the 12-byte identification block at `offset`: a
    /// `RIFF` or `RIFX` tag (the latter recorded as big-endian), the
    /// declared size in that endianness, and the `WAVE` format tag.
    pub fn read_riff_chunk(buffer: &Vec<u8>, offset: usize) -> (r: Result<
        RiffChunk,
        WaveReaderError,
    >)
        requires
            offset + 12 <= buffer@.len(),
        ensures
            r is Ok <==> (riff_tag_ok(buffer@, offset as int) && wave_tag_ok(
                buffer@,
                offset as int,
            )),
            r matches Ok(c) ==> (c.is_big_endian == riff_is_big_endian(buffer@, offset as int)
                && c.file_size == riff_file_size(buffer@, offset as int)),
            (r == Err::<RiffChunk, WaveReaderError>(WaveReaderError::NotRiffError)) <==> !riff_tag_ok(
                buffer@,
                offset as int,
            ),
            (r == Err::<RiffChunk, WaveReaderError>(WaveReaderError::NotWaveError)) <==> (
            riff_tag_ok(buffer@, offset as int) && !wave_tag_ok(buffer@, offset as int)),
    {
        let buffer_len = buffer.len();
        proof {
            assert(offset + 12 <= buffer_len);
        }
        let b3 = buffer[offset + 3];
        if !(buffer[offset] == 0x52 && buffer[offset + 1] == 0x49 && buffer[offset + 2] == 0x46 && (
        b3 == 0x46 || b3 == 0x58)) {
            return Err(WaveReaderError::NotRiffError);
        }
        let is_big_endian = b3 == 0x58;
        let file_size: u32 = if is_big_endian {
            read_u32_be_at(buffer, offset + 4)
        } else {
            read_u32_le_at(buffer, offset + 4)
        };
        if !(buffer[offset + 8] == 0x57 && buffer[offset + 9] == 0x41 && buffer[offset + 10] == 0x56
            && buffer[offset + 11] == 0x45) {
            return Err(WaveReaderError::NotWaveError);
        }
        Ok(RiffChunk { file_size, is_big_endian })
    }

    /// Validate the 24-byte format-description block at `offset`: the
    /// `fmt ` tag, the integer-PCM encoding flag, and a declared
    /// profile this source supports; extract channel count, sample
    /// rate, and bits per sample.
    pub fn read_fmt_chunk(buffer: &Vec<u8>, offset: usize) -> (r: Result<
        PCMWaveFormatChunk,
        WaveReaderError,
    >)
        requires
            offset + 24 <= buffer@.len(),
        ensures
            r is Ok <==> (fmt_tag_ok(buffer@, offset as int) && fmt_is_pcm(buffer@, offset as int)
                && parsed_fmt(buffer@, offset as int).wf()),
            r matches Ok(c) ==> (c == parsed_fmt(buffer@, offset as int) && c.wf()),
            (r == Err::<PCMWaveFormatChunk, WaveReaderError>(WaveReaderError::ChunkTypeError))
                <==> !fmt_tag_ok(buffer@, offset as int),
            (r == Err::<PCMWaveFormatChunk, WaveReaderError>(WaveReaderError::NotPCMError)) <==> (
            fmt_tag_ok(buffer@, offset as int) && !fmt_is_pcm(buffer@, offset as int)),
            (r == Err::<PCMWaveFormatChunk, WaveReaderError>(WaveReaderError::DataAlignmentError))
                <==> (fmt_tag_ok(buffer@, offset as int) && fmt_is_pcm(buffer@, offset as int)
                && !parsed_fmt(buffer@, offset as int).wf()),
    {
        let buffer_len = buffer.len();
        proof {
            assert(offset + 24 <= buffer_len);
        }
        let chunk_id = read_u32_le_at(buffer, offset);
        if chunk_id != 0x20746D66 {
            return Err(WaveReaderError::ChunkTypeError);
        }
        let audio_format = read_u16_le_at(buffer, offset + 8);
        if audio_format != 1 {
            return Err(WaveReaderError::NotPCMError);
        }
        let num_channels = read_u16_le_at(buffer, offset + 10);
        let samp_rate = read_u32_le_at(buffer, offset + 12);
        let bps = read_u16_le_at(buffer, offset + 22);
        proof {
            assert((num_channels as int) * (bps as int) <= 65535 * 65535) by (nonlinear_arith)
                requires
                    num_channels <= 65535,
                    bps <= 65535,
            ;
        }
        if num_channels < 1 || bps < 8 || bps > 64 || bps % 8 != 0 || (num_channels as u32) * (
        bps as u32) > 65535 {
            return Err(WaveReaderError::DataAlignmentError);
        }
        Ok(PCMWaveFormatChunk { num_channels, samp_rate, bps })
    }

    /// Validate the payload block's 8-byte header at `offset`: the
    /// `data` tag and the declared byte length; take the rest of the
    /// buffer as the sample payload, with the cursor at its start.
    pub fn read_data_chunk(buffer: &Vec<u8>, offset: usize, fmt_info: &PCMWaveFormatChunk) -> (r:
        Result<PCMWaveDataChunk, WaveReaderError>)
        requires
            offset + 8 <= buffer@.len(),
            fmt_info.wf(),
        ensures
            r is Ok <==> data_tag_ok(buffer@, offset as int),
            r matches Ok(c) ==> (c.size_bytes == le32(buffer@, offset as int + 4) && c.format
                == *fmt_info && c.pos == 0 && c.data@ == buffer@.subrange(
                offset as int + 8,
                buffer@.len() as int,
            ) && c.wf()),
            (r == Err::<PCMWaveDataChunk, WaveReaderError>(WaveReaderError::ChunkTypeError))
                <==> !data_tag_ok(buffer@, offset as int),
    {
        let buffer_len = buffer.len();
        proof {
            assert(offset + 8 <= buffer_len);
        }
        let chunk_id = read_u32_le_at(buffer, offset);
        if chunk_id != 0x61746164 {
            return Err(WaveReaderError::ChunkTypeError);
        }
        let size_bytes = read_u32_le_at(buffer, offset + 4);
        let mut data: Vec<u8> = Vec::new();
        let mut i: usize = offset + 8;
        proof {
            assert(buffer@.subrange(offset as int + 8, offset as int + 8) =~= Seq::<u8>::empty());
        }
        while i < buffer.len()
            invariant
                offset + 8 <= i <= buffer@.len(),
                data@ == buffer@.subrange(offset as int + 8, i as int),
            decreases buffer@.len() - i,
        {
            data.push(buffer[i]);
            proof {
                assert(buffer@.subrange(offset as int + 8, i + 1) =~= buffer@.subrange(
                    offset as int + 8,
                    i as int,
                ).push(buffer@[i as int]));
            }
            i = i + 1;
        }
        Ok(PCMWaveDataChunk { size_bytes, format: *fmt_info, data, pos: 0 })
    }

    /// Parse a whole container: the identification block at the
    /// start, the format-description block after it, and the payload
    /// block at byte 36. A buffer too short for the three headers is
    /// a read failure, and each block's validation failure is
    /// reported as that block's error.
    pub fn open_pcm(buffer: &Vec<u8>) -> (r: Result<PCMWaveInfo, WaveReaderError>)
        ensures
            r is Ok <==> container_ok(buffer@),
            r matches Ok(info) ==> (info.riff_header.is_big_endian == riff_is_big_endian(buffer@, 0)
                && info.riff_header.file_size == riff_file_size(buffer@, 0) && info.fmt_header
                == parsed_fmt(buffer@, 12) && info.fmt_header.wf() && info.data_chunks@.len() == 1
                && info.data_chunks@[0].format == parsed_fmt(buffer@, 12)
                && info.data_chunks@[0].size_bytes == le32(buffer@, 40)
                && info.data_chunks@[0].pos == 0 && info.data_chunks@[0].data@ == buffer@.subrange(
                44,
                buffer@.len() as int,
            ) && info.data_chunks@[0].wf()),
            buffer@.len() < 44 ==> r == Err::<PCMWaveInfo, WaveReaderError>(
                WaveReaderError::ReadError,
            ),
            buffer@.len() >= 44 && !riff_tag_ok(buffer@, 0) ==> r == Err::<
                PCMWaveInfo,
                WaveReaderError,
            >(WaveReaderError::NotRiffError),
            buffer@.len() >= 44 && riff_tag_ok(buffer@, 0) && !wave_tag_ok(buffer@, 0) ==> r
                == Err::<PCMWaveInfo, WaveReaderError>(WaveReaderError::NotWaveError),
            buffer@.len() >= 44 && riff_tag_ok(buffer@, 0) && wave_tag_ok(buffer@, 0)
                && !fmt_tag_ok(buffer@, 12) ==> r == Err::<PCMWaveInfo, WaveReaderError>(
                WaveReaderError::ChunkTypeError,
            ),
            buffer@.len() >= 44 && riff_tag_ok(buffer@, 0) && wave_tag_ok(buffer@, 0) && fmt_tag_ok(
                buffer@,
                12,
            ) && !fmt_is_pcm(buffer@, 12) ==> r == Err::<PCMWaveInfo, WaveReaderError>(
                WaveReaderError::NotPCMError,
            ),
            buffer@.len() >= 44 && riff_tag_ok(buffer@, 0) && wave_tag_ok(buffer@, 0) && fmt_tag_ok(
                buffer@,
                12,
            ) && fmt_is_pcm(buffer@, 12) && !parsed_fmt(buffer@, 12).wf() ==> r == Err::<
                PCMWaveInfo,
                WaveReaderError,
            >(WaveReaderError::DataAlignmentError),
            buffer@.len() >= 44 && riff_tag_ok(buffer@, 0) && wave_tag_ok(buffer@, 0) && fmt_tag_ok(
                buffer@,
                12,
            ) && fmt_is_pcm(buffer@, 12) && parsed_fmt(buffer@, 12).wf() && !data_tag_ok(
                buffer@,
                36,
            ) ==> r == Err::<PCMWaveInfo, WaveReaderError>(WaveReaderError::ChunkTypeError),
    {
        if buffer.len() < 44 {
            return Err(WaveReaderError::ReadError);
        }
        let riff_header = match Self::read_riff_chunk(buffer, 0) {
            Ok(c) => c,
            Err(e) => {
                return Err(e);
            },
        };
        let fmt_header = match Self::read_fmt_chunk(buffer, 12) {
            Ok(c) => c,
            Err(e) => {
                return Err(e);
            },
        };
        let data_chunk = match Self::read_data_chunk(buffer, 36, &fmt_header) {
            Ok(c) => c,
            Err(e) => {
                return Err(e);
            },
        };
        let mut data_chunks: Vec<PCMWaveDataChunk> = Vec::new();
        data_chunks.push(data_chunk);
        Ok(PCMWaveInfo { riff_header, fmt_header, data_chunks })
    }
}

} // verus!
