//! Encoding: samples to frames, frames to a file.

use vstd::arithmetic::power2::*;
use vstd::prelude::*;
use vstd::slice::*;

use crate::bytes::{le16_at, le32_at, push_slice, read_le16, read_le32};
use crate::entropy::{
    path_of, running_start, write_pairs, PairEncoder, ResidualEncoder, ResidualEncoderModel,
};
use crate::entropy_laws::law_newer_path_holds_every_residual;
use crate::error::{Error, Result};
use crate::frame::{
    crc32, frame_entropy_init, frame_init, stored_crc, FrameFlags, MAX_FRAME_BLOCKS,
};
use crate::header::CompressionLevel;
use crate::pcm::{
    all_fit, channel_len, coded_arrays, deinterleave_pcm_bytes, deinterleaved, interleave_pcm_bytes,
    interleaved, is_depth, pcm_to_coded_arrays, same_lengths,
};
use crate::pipeline::contents;
use crate::range_coder::fresh_encoder;
use crate::writer::{
    canonical_wav_header, to_le_word_layout, wav_align, wav_header_for, word_layout, FileLayout,
    LayoutModel, ENCODER_FILE_VERSION,
};

verus! {

/// Blocks per frame, unless configured otherwise.
pub const DEFAULT_BLOCKS_PER_FRAME: u32 = 73728;

// ---------------------------------------------------------------------
// Configuration
// ---------------------------------------------------------------------

/// Encoder configuration.
#[derive(Debug, Clone, PartialEq, Eq)]
pub struct EncoderConfig {
    /// Compression level.
    pub compression_level: CompressionLevel,
    /// Number of channels, 1 or 2.
    pub channels: u16,
    /// Sample rate.
    pub sample_rate: u32,
    /// Bits per sample: 8, 16 or 24.
    pub bits_per_sample: u16,
    /// Blocks per frame, but for the last one.
    pub blocks_per_frame: u32,
    /// The WAV header to store; `None` makes one up.
    pub wav_header: Option<Vec<u8>>,
    /// What followed the samples in the WAV file.
    pub terminating_data: Vec<u8>,
    /// Bytes to append to the file, such as a tag.
    pub trailing_tag: Vec<u8>,
}

/// What is wrong with a configuration, if anything is.
pub open spec fn config_error(cfg: EncoderConfig) -> Option<Error> {
    if !(1 <= cfg.channels <= 2) {
        Some(Error::InvalidInput("channel count outside 1..=2"))
    } else if !is_depth(cfg.bits_per_sample) {
        Some(Error::InvalidInput("bits per sample outside {8, 16, 24}"))
    } else if cfg.blocks_per_frame == 0 || cfg.blocks_per_frame > MAX_FRAME_BLOCKS {
        Some(Error::InvalidInput("blocks per frame outside 1..=2^20"))
    } else if cfg.sample_rate == 0 {
        Some(Error::InvalidInput("sample rate must be non-zero"))
    } else {
        None
    }
}

impl EncoderConfig {
    /// A configuration with the default frame size and a WAV header that
    /// is made up.
    pub fn new(
        level: CompressionLevel,
        channels: u16,
        sample_rate: u32,
        bits_per_sample: u16,
    ) -> (r: Self)
        ensures
            r.compression_level == level,
            r.channels == channels,
            r.sample_rate == sample_rate,
            r.bits_per_sample == bits_per_sample,
            r.blocks_per_frame == DEFAULT_BLOCKS_PER_FRAME,
            r.wav_header is None,
            r.terminating_data@.len() == 0,
            r.trailing_tag@.len() == 0,
    {
        EncoderConfig {
            compression_level: level,
            channels,
            sample_rate,
            bits_per_sample,
            blocks_per_frame: DEFAULT_BLOCKS_PER_FRAME,
            wav_header: None,
            terminating_data: Vec::new(),
            trailing_tag: Vec::new(),
        }
    }

    /// Checks the configuration.
    pub fn validate(&self) -> (r: Result<()>)
        ensures
            match config_error(*self) {
                Some(e) => r == Err::<(), Error>(e),
                None => r == Ok::<(), Error>(()),
            },
    {
        if self.channels < 1 || self.channels > 2 {
            return Err(Error::InvalidInput("channel count outside 1..=2"));
        }
        if self.bits_per_sample != 8 && self.bits_per_sample != 16 && self.bits_per_sample != 24 {
            return Err(Error::InvalidInput("bits per sample outside {8, 16, 24}"));
        }
        if self.blocks_per_frame == 0 || self.blocks_per_frame > MAX_FRAME_BLOCKS {
            return Err(Error::InvalidInput("blocks per frame outside 1..=2^20"));
        }
        if self.sample_rate == 0 {
            return Err(Error::InvalidInput("sample rate must be non-zero"));
        }
        Ok(())
    }

    /// Bytes per block of samples.
    pub fn block_align(&self) -> (r: usize)
        ensures
            r == self.channels * (self.bits_per_sample / 8),
    {
        assert(self.channels * (self.bits_per_sample / 8) <= 0xFFFF * 8191) by (nonlinear_arith)
            requires
                0 <= self.bits_per_sample / 8 <= 8191,
                0 <= self.channels <= 0xFFFF,
        ;
        self.channels as usize * (self.bits_per_sample / 8) as usize
    }

    /// The smallest and the largest sample of the bit depth.
    pub fn sample_range(&self) -> (r: (i32, i32))
        requires
            1 <= self.bits_per_sample <= 31,
        ensures
            r.0 == -pow2((self.bits_per_sample - 1) as nat),
            r.1 == pow2((self.bits_per_sample - 1) as nat) - 1,
    {
        let half = half_range(self.bits_per_sample);
        (-(half as i32), (half as i32) - 1)
    }
}

/// `2^(bits - 1)`.
fn half_range(bits: u16) -> (r: i64)
    requires
        1 <= bits <= 63,
    ensures
        r == pow2((bits - 1) as nat),
        1 <= r,
        bits <= 31 ==> r <= 0x4000_0000,
{
    proof {
        lemma2_to64();
        lemma2_to64_rest();
        lemma_pow2_pos((bits - 1) as nat);
        lemma_pow2_strictly_increases((bits - 1) as nat, 63);
        vstd::bits::lemma_u64_shl_is_mul(1, (bits - 1) as u64);
        if bits < 31 {
            lemma_pow2_strictly_increases((bits - 1) as nat, 30);
        }
        if bits <= 62 {
            lemma_pow2_strictly_increases((bits - 1) as nat, 62);
        }
    }
    (1u64 << ((bits - 1) as u64)) as i64
}

// ---------------------------------------------------------------------
// Flags
// ---------------------------------------------------------------------

/// All samples are zero.
pub open spec fn is_silent(ch: Seq<i32>) -> bool {
    forall|i: int| 0 <= i < ch.len() ==> #[trigger] ch[i] == 0
}

/// The flags of a frame with the channels `pcm`.
pub open spec fn flags_of(pcm: Seq<Seq<i32>>) -> FrameFlags {
    if pcm.len() == 1 {
        FrameFlags(
            if is_silent(pcm[0]) {
                1
            } else {
                0
            },
        )
    } else if pcm.len() == 2 {
        let second: u32 = if is_silent(pcm[1]) {
            1
        } else {
            0
        };
        let first: u32 = if is_silent(pcm[0]) {
            2
        } else {
            0
        };
        let same: u32 = if pcm[0] == pcm[1] {
            4
        } else {
            0
        };
        FrameFlags((second + first + same) as u32)
    } else {
        FrameFlags(0)
    }
}

fn silent(ch: &Vec<i32>) -> (r: bool)
    ensures
        r == is_silent(ch@),
{
    let mut i: usize = 0;
    while i < ch.len()
        invariant
            i <= ch@.len(),
            forall|k: int| 0 <= k < i ==> #[trigger] ch@[k] == 0,
        decreases ch@.len() - i,
    {
        if ch[i] != 0 {
            assert(ch@[i as int] != 0);
            return false;
        }
        i = i + 1;
    }
    true
}

fn same_samples(a: &Vec<i32>, b: &Vec<i32>) -> (r: bool)
    ensures
        r == (a@ == b@),
{
    if a.len() != b.len() {
        return false;
    }
    let mut i: usize = 0;
    while i < a.len()
        invariant
            i <= a@.len(),
            a@.len() == b@.len(),
            forall|k: int| 0 <= k < i ==> a@[k] == b@[k],
        decreases a@.len() - i,
    {
        if a[i] != b[i] {
            return false;
        }
        i = i + 1;
    }
    assert(a@ =~= b@);
    true
}

/// The flags of a frame: bit 0 for a silent mono or second channel, bit 1
/// for a silent first channel, bit 2 for two equal channels.
pub fn frame_flags(pcm: &[Vec<i32>]) -> (r: FrameFlags)
    ensures
        r == flags_of(contents(pcm@)),
{
    assert(contents(pcm@).len() == pcm@.len());
    if pcm.len() == 1 {
        if silent(&pcm[0]) {
            FrameFlags(1)
        } else {
            FrameFlags(0)
        }
    } else if pcm.len() == 2 {
        let mut flags: u32 = 0;
        if silent(&pcm[1]) {
            flags = flags + 1;
        }
        if silent(&pcm[0]) {
            flags = flags + 2;
        }
        if same_samples(&pcm[0], &pcm[1]) {
            flags = flags + 4;
        }
        FrameFlags(flags)
    } else {
        FrameFlags(0)
    }
}

/// What the flag bits say.
pub proof fn lemma_flag_bits(v: u32)
    requires
        v < 8,
    ensures
        FrameFlags(v).carries(1) == (v % 2 == 1),
        FrameFlags(v).carries(2) == ((v / 2) % 2 == 1),
        FrameFlags(v).carries(4) == ((v / 4) % 2 == 1),
{
    assert((v & 1 != 0) == (v % 2 == 1) && (v & 2 != 0) == ((v / 2) % 2 == 1) && (v & 4 != 0) == ((v
        / 4) % 2 == 1)) by (bit_vector)
        requires
            v < 8,
    ;
}

// ---------------------------------------------------------------------
// One frame
// ---------------------------------------------------------------------

/// The residual encoder of a frame at its start.
pub open spec fn frame_encoder() -> ResidualEncoderModel {
    ResidualEncoderModel {
        path: path_of(ENCODER_FILE_VERSION),
        rc: fresh_encoder(),
        state: running_start(frame_init()),
    }
}

/// The coder payload of up to two arrays.
pub open spec fn payload_of(arrays: Seq<Seq<i32>>) -> Seq<u8> {
    let e = frame_encoder();
    if arrays.len() == 0 {
        e.rc.flushed()
    } else if arrays.len() == 1 {
        e.run(arrays[0])->Some_0.rc.flushed()
    } else {
        write_pairs(
            e.path,
            PairEncoder { rc: e.rc, s0: e.state, s1: e.state },
            arrays[0],
            arrays[1],
            arrays[0].len(),
        )->Some_0.rc.flushed()
    }
}

/// From version 3990 on every pair of residuals fits.
pub proof fn lemma_newer_pairs_fit(
    start: PairEncoder,
    a: Seq<i32>,
    b: Seq<i32>,
    n: nat,
)
    ensures
        write_pairs(path_of(ENCODER_FILE_VERSION), start, a, b, n) is Some,
    decreases n,
{
    if n > 0 {
        lemma_newer_pairs_fit(start, a, b, (n - 1) as nat);
    }
}

/// Codes up to two arrays.
fn entropy_code(arrays: &Vec<Vec<i32>>) -> (r: Result<Vec<u8>>)
    requires
        arrays@.len() == 2 ==> arrays@[0]@.len() <= arrays@[1]@.len(),
    ensures
        arrays@.len() <= 2 ==> r is Ok && r->Ok_0@ == payload_of(contents(arrays@)),
        arrays@.len() > 2 ==> r == Err::<Vec<u8>, Error>(
            Error::InvalidInput("more than two coded arrays"),
        ),
{
    let mut enc = ResidualEncoder::new(ENCODER_FILE_VERSION, frame_entropy_init());
    let ghost start = enc@;
    let ghost all = contents(arrays@);
    assert(all.len() == arrays@.len());
    if arrays.len() == 0 {
    } else if arrays.len() == 1 {
        let single = &arrays[0];
        let mut i: usize = 0;
        assert(single@.take(0) =~= Seq::<i32>::empty());
        while i < single.len()
            invariant
                i <= single@.len(),
                enc.wf(),
                start == frame_encoder(),
                start.run(single@.take(i as int)) == Some(enc@),
            decreases single@.len() - i,
        {
            proof {
                assert(single@.take(i as int + 1).drop_last() =~= single@.take(i as int));
                law_newer_path_holds_every_residual(start, single@.take(i as int + 1));
            }
            let _done = enc.encode_residual(single[i]);
            i = i + 1;
        }
        assert(single@.take(i as int) =~= single@);
    } else if arrays.len() == 2 {
        let a = &arrays[0];
        let b = &arrays[1];
        let mut s0 = frame_entropy_init();
        let mut s1 = frame_entropy_init();
        let ghost pair = PairEncoder { rc: start.rc, s0: start.state, s1: start.state };
        let mut i: usize = 0;
        while i < a.len()
            invariant
                i <= a@.len() <= b@.len(),
                enc.wf(),
                start == frame_encoder(),
                enc@.path == start.path,
                pair == (PairEncoder { rc: start.rc, s0: start.state, s1: start.state }),
                s0.k <= 31,
                s1.k <= 31,
                write_pairs(start.path, pair, a@, b@, i as nat) == Some(
                    PairEncoder {
                        rc: enc@.rc,
                        s0: running_start(s0),
                        s1: running_start(s1),
                    },
                ),
            decreases a@.len() - i,
        {
            proof {
                lemma_newer_pairs_fit(pair, a@, b@, i as nat + 1);
            }
            enc.reset_state(s0);
            let _first = enc.encode_residual(a[i]);
            s0 = enc.running_state();
            enc.reset_state(s1);
            let _second = enc.encode_residual(b[i]);
            s1 = enc.running_state();
            i = i + 1;
        }
    } else {
        return Err(Error::InvalidInput("more than two coded arrays"));
    }
    Ok(enc.finish())
}

/// The four bytes of `x`, the highest one first.
pub open spec fn be32_bytes(x: nat) -> Seq<u8> {
    seq![
        ((x / 0x100_0000) % 256) as u8,
        ((x / 0x1_0000) % 256) as u8,
        ((x / 256) % 256) as u8,
        (x % 256) as u8,
    ]
}

/// Appends the four bytes of `x`, the highest one first.
fn push_be32(out: &mut Vec<u8>, x: u32)
    ensures
        final(out)@ == old(out)@ + be32_bytes(x as nat),
{
    out.push((x / 0x100_0000) as u8);
    out.push(((x / 0x1_0000) % 256) as u8);
    out.push(((x / 256) % 256) as u8);
    out.push((x % 256) as u8);
    assert(out@ =~= old(out)@ + be32_bytes(x as nat));
}

/// The prologue of a frame: the checksum, and the flags where one is set.
pub open spec fn prologue_bytes(crc31: u32, flags: FrameFlags) -> Seq<u8> {
    if flags.0 != 0 {
        be32_bytes((crc31 + 0x8000_0000) as nat) + be32_bytes(flags.0 as nat)
    } else {
        be32_bytes(crc31 as nat)
    }
}

/// The arrays that a frame codes: none when all channels are silent, one
/// for two equal channels.
pub open spec fn arrays_to_code(pcm: Seq<Seq<i32>>, level: CompressionLevel) -> Seq<Seq<i32>> {
    let flags = flags_of(pcm);
    if flags.silences(pcm.len() as u16) {
        Seq::empty()
    } else if pcm.len() == 2 && flags.carries(4) {
        coded_arrays(seq![pcm[0]], ENCODER_FILE_VERSION, level)->Ok_0
    } else {
        coded_arrays(pcm, ENCODER_FILE_VERSION, level)->Ok_0
    }
}

/// The bytes of a frame.
#[verifier::opaque]
pub open spec fn frame_bytes(pcm: Seq<Seq<i32>>, level: CompressionLevel, bits: u16) -> Seq<u8> {
    prologue_bytes(stored_crc(interleaved(pcm, bits, channel_len(pcm))), flags_of(pcm))
        + seq![0u8] + payload_of(arrays_to_code(pcm, level))
}

/// A sample of `bits` bits.
pub open spec fn in_depth(v: i32, bits: u16) -> bool {
    -pow2((bits - 1) as nat) <= v < pow2((bits - 1) as nat)
}

/// All samples are of `bits` bits.
pub open spec fn all_in_depth(pcm: Seq<Seq<i32>>, bits: u16) -> bool {
    forall|c: int, i: int|
        0 <= c < pcm.len() && 0 <= i < pcm[c].len() ==> in_depth(#[trigger] pcm[c][i], bits)
}

/// What is wrong with the samples of a frame, if anything is.
pub open spec fn frame_error(pcm: Seq<Seq<i32>>, bits: u16) -> Option<Error> {
    if !(1 <= pcm.len() <= 2) {
        Some(Error::InvalidInput("channel count outside 1..=2"))
    } else if !same_lengths(pcm) {
        Some(Error::InvalidInput("PCM channels disagree on length"))
    } else if !all_in_depth(pcm, bits) {
        Some(Error::InvalidInput("sample outside the bit depth's range"))
    } else if !is_depth(bits) {
        Some(Error::Malformed("bits-per-sample outside the staged {8, 16, 24} set"))
    } else {
        None
    }
}

/// One encoded frame.
#[derive(Debug, Clone, PartialEq, Eq)]
pub struct EncodedFrame {
    /// The flags.
    pub flags: FrameFlags,
    /// Number of blocks.
    pub blocks: u32,
    /// The stored checksum.
    pub crc31: u32,
    /// The bytes of the frame, before they are put into words.
    pub bytes: Vec<u8>,
}

/// All channels have the length `n`.
fn lengths_are(pcm: &[Vec<i32>], n: usize) -> (r: bool)
    ensures
        r == (forall|c: int| 0 <= c < pcm@.len() ==> (#[trigger] contents(pcm@)[c]).len() == n),
{
    let ghost chs = contents(pcm@);
    let mut c: usize = 0;
    while c < pcm.len()
        invariant
            c <= pcm@.len(),
            chs == contents(pcm@),
            forall|d: int| 0 <= d < c ==> (#[trigger] chs[d]).len() == n,
        decreases pcm@.len() - c,
    {
        if pcm[c].len() != n {
            assert(chs[c as int].len() != n);
            return false;
        }
        c = c + 1;
    }
    true
}

/// All samples are of `bits` bits.
fn depths_are(pcm: &[Vec<i32>], bits: u16) -> (r: bool)
    requires
        1 <= bits <= 63,
    ensures
        r == all_in_depth(contents(pcm@), bits),
{
    let ghost chs = contents(pcm@);
    let half = half_range(bits);
    let mut c: usize = 0;
    while c < pcm.len()
        invariant
            c <= pcm@.len(),
            chs == contents(pcm@),
            half == pow2((bits - 1) as nat),
            1 <= half,
            forall|d: int, i: int|
                0 <= d < c && 0 <= i < chs[d].len() ==> in_depth(#[trigger] chs[d][i], bits),
        decreases pcm@.len() - c,
    {
        let ch = &pcm[c];
        let mut i: usize = 0;
        while i < ch.len()
            invariant
                c < pcm@.len(),
                i <= ch@.len(),
                chs == contents(pcm@),
                ch@ == chs[c as int],
                half == pow2((bits - 1) as nat),
                1 <= half,
                forall|k: int| 0 <= k < i ==> in_depth(#[trigger] chs[c as int][k], bits),
            decreases ch@.len() - i,
        {
            let v: i64 = ch[i] as i64;
            if v < -half || v >= half {
                assert(!in_depth(chs[c as int][i as int], bits));
                return false;
            }
            i = i + 1;
        }
        c = c + 1;
    }
    true
}

/// Encodes one frame of samples.
pub fn encode_frame(pcm: &[Vec<i32>], level: CompressionLevel, bits_per_sample: u16) -> (r: Result<
    EncodedFrame,
>)
    requires
        1 <= pcm@.len() <= 2 && same_lengths(contents(pcm@)) ==> 1 <= bits_per_sample <= 64,
        1 <= pcm@.len() <= 2 && same_lengths(contents(pcm@)) && channel_len(contents(pcm@)) > 0
            ==> bits_per_sample <= 63,
    ensures
        match frame_error(contents(pcm@), bits_per_sample) {
            Some(e) => r == Err::<EncodedFrame, Error>(e),
            None => {
                let chs = contents(pcm@);
                &&& r is Ok
                &&& r->Ok_0.flags == flags_of(chs)
                &&& r->Ok_0.blocks == channel_len(chs) % 0x1_0000_0000
                &&& r->Ok_0.crc31 == stored_crc(
                    interleaved(chs, bits_per_sample, channel_len(chs)),
                )
                &&& r->Ok_0.bytes@ == frame_bytes(chs, level, bits_per_sample)
            },
        },
{
    let ghost chs = contents(pcm@);
    assert(chs.len() == pcm@.len());
    if pcm.len() < 1 || pcm.len() > 2 {
        return Err(Error::InvalidInput("channel count outside 1..=2"));
    }
    let blocks: usize = pcm[0].len();
    assert(blocks == channel_len(chs));
    if !lengths_are(pcm, blocks) {
        return Err(Error::InvalidInput("PCM channels disagree on length"));
    }
    assert(same_lengths(chs));
    if blocks > 0 && !depths_are(pcm, bits_per_sample) {
        return Err(Error::InvalidInput("sample outside the bit depth's range"));
    }
    assert(blocks == 0 ==> all_in_depth(chs, bits_per_sample));
    let pcm_bytes = match interleave_pcm_bytes(pcm, bits_per_sample) {
        Err(e) => {
            return Err(e);
        },
        Ok(b) => b,
    };
    let flags = frame_flags(pcm);
    let channels: u16 = pcm.len() as u16;
    let coded: Vec<Vec<i32>> = if flags.all_silent(channels) {
        Vec::new()
    } else if channels == 2 && flags.has(FrameFlags::PSEUDO_STEREO) {
        let first = slice_subrange(pcm, 0, 1);
        assert(contents(first@) =~= seq![chs[0]]);
        match pcm_to_coded_arrays(first, ENCODER_FILE_VERSION, level) {
            Err(e) => {
                return Err(e);
            },
            Ok(a) => a,
        }
    } else {
        assert(chs.len() == 2 ==> chs[1].len() == channel_len(chs));
        match pcm_to_coded_arrays(pcm, ENCODER_FILE_VERSION, level) {
            Err(e) => {
                return Err(e);
            },
            Ok(a) => a,
        }
    };
    proof {
        assert(contents(coded@) =~= arrays_to_code(chs, level));
        lemma_coded_lengths(chs, level);
        assert(contents(coded@).len() == coded@.len());
        assert(coded@.len() == 2 ==> contents(coded@)[0] == coded@[0]@ && contents(coded@)[1]
            == coded@[1]@);
    }
    let payload = match entropy_code(&coded) {
        Err(e) => {
            return Err(e);
        },
        Ok(p) => p,
    };
    let crc31: u32 = crc32(pcm_bytes.as_slice()) / 2;
    let mut bytes: Vec<u8> = Vec::new();
    if flags.0 != 0 {
        push_be32(&mut bytes, crc31 + 0x8000_0000);
        push_be32(&mut bytes, flags.0);
        assert(bytes@ =~= prologue_bytes(crc31, flags));
    } else {
        push_be32(&mut bytes, crc31);
        assert(bytes@ =~= prologue_bytes(crc31, flags));
    }
    bytes.push(0);
    assert(bytes@ =~= prologue_bytes(crc31, flags) + seq![0u8]);
    push_slice(&mut bytes, payload.as_slice());
    proof {
        reveal(frame_bytes);
    }
    Ok(
        EncodedFrame {
            flags,
            blocks: (blocks as u64 % 0x1_0000_0000) as u32,
            crc31,
            bytes,
        },
    )
}

/// The arrays of a frame are as long as its channels.
pub proof fn lemma_coded_lengths(pcm: Seq<Seq<i32>>, level: CompressionLevel)
    requires
        1 <= pcm.len() <= 2,
        same_lengths(pcm),
    ensures
        arrays_to_code(pcm, level).len() <= 2,
        forall|k: int|
            0 <= k < arrays_to_code(pcm, level).len() ==> (#[trigger] arrays_to_code(
                pcm,
                level,
            )[k]).len() == channel_len(pcm),
{
    let flags = flags_of(pcm);
    assert(pcm.len() == 2 ==> pcm[1].len() == channel_len(pcm));
    if flags.silences(pcm.len() as u16) {
    } else if pcm.len() == 2 && flags.carries(4) {
        crate::pcm::lemma_coded_array_lengths(seq![pcm[0]], ENCODER_FILE_VERSION, level);
    } else {
        crate::pcm::lemma_coded_array_lengths(pcm, ENCODER_FILE_VERSION, level);
    }
}

// ---------------------------------------------------------------------
// Streams of frames
// ---------------------------------------------------------------------

/// Samples `from` to `to` of every channel.
pub open spec fn chunk(pcm: Seq<Seq<i32>>, from: int, to: int) -> Seq<Seq<i32>> {
    Seq::new(pcm.len(), |c: int| pcm[c].subrange(from, to))
}

/// Where frame `i` ends.
pub open spec fn frame_end(n: nat, bpf: nat, i: nat) -> int {
    if (i + 1) * bpf <= n {
        ((i + 1) * bpf) as int
    } else {
        n as int
    }
}

/// The samples of frame `i`: `bpf` blocks, or what is left.
pub open spec fn frame_chunk(pcm: Seq<Seq<i32>>, bpf: nat, i: nat) -> Seq<Seq<i32>> {
    chunk(pcm, (i * bpf) as int, frame_end(channel_len(pcm), bpf, i))
}

/// The bytes of the first `k` frames.
pub open spec fn stream_bytes(
    pcm: Seq<Seq<i32>>,
    level: CompressionLevel,
    bits: u16,
    bpf: nat,
    k: nat,
) -> Seq<u8>
    decreases k,
{
    if k == 0 {
        Seq::empty()
    } else {
        stream_bytes(pcm, level, bits, bpf, (k - 1) as nat) + frame_bytes(
            frame_chunk(pcm, bpf, (k - 1) as nat),
            level,
            bits,
        )
    }
}

/// The byte offsets of the first `k` frames, as 32-bit numbers.
pub open spec fn stream_offsets(
    pcm: Seq<Seq<i32>>,
    level: CompressionLevel,
    bits: u16,
    bpf: nat,
    k: nat,
) -> Seq<u32> {
    Seq::new(
        k,
        |i: int| (stream_bytes(pcm, level, bits, bpf, i as nat).len() % 0x1_0000_0000) as u32,
    )
}

/// The number of frames for `n` blocks; no blocks make one empty frame.
pub open spec fn frame_count(n: nat, bpf: nat) -> nat {
    if n == 0 {
        1
    } else {
        (n + bpf - 1) as nat / bpf
    }
}

/// `pcm` with the samples of `more` appended to every channel.
pub open spec fn appended(pcm: Seq<Seq<i32>>, more: Seq<Seq<i32>>) -> Seq<Seq<i32>> {
    Seq::new(pcm.len(), |c: int| pcm[c] + more[c])
}

/// `n` channels without samples.
pub open spec fn no_samples(n: nat) -> Seq<Seq<i32>> {
    Seq::new(n, |c: int| Seq::empty())
}

/// What is wrong with pushed samples, if anything is.
pub open spec fn push_error(cfg: EncoderConfig, more: Seq<Seq<i32>>) -> Option<Error> {
    if more.len() != cfg.channels {
        Some(Error::InvalidInput("pushed channel count disagrees with the configuration"))
    } else if !same_lengths(more) {
        Some(Error::InvalidInput("PCM channels disagree on length"))
    } else if !all_in_depth(more, cfg.bits_per_sample) {
        Some(Error::InvalidInput("sample outside the bit depth's range"))
    } else {
        None
    }
}

/// Frames that lie within a prefix depend on the prefix only.
pub proof fn lemma_stream_prefix(
    pcm: Seq<Seq<i32>>,
    more: Seq<Seq<i32>>,
    level: CompressionLevel,
    bits: u16,
    bpf: nat,
    k: nat,
)
    requires
        pcm.len() == more.len(),
        pcm.len() > 0,
        same_lengths(pcm),
        same_lengths(more),
        k * bpf <= channel_len(pcm),
    ensures
        stream_bytes(appended(pcm, more), level, bits, bpf, k) == stream_bytes(
            pcm,
            level,
            bits,
            bpf,
            k,
        ),
        stream_offsets(appended(pcm, more), level, bits, bpf, k) == stream_offsets(
            pcm,
            level,
            bits,
            bpf,
            k,
        ),
    decreases k,
{
    let all = appended(pcm, more);
    if k > 0 {
        let j = (k - 1) as nat;
        assert(j * bpf + bpf == k * bpf) by (nonlinear_arith)
            requires
                j == k - 1,
        ;
        lemma_stream_prefix(pcm, more, level, bits, bpf, j);
        assert(j * bpf >= 0) by (nonlinear_arith);
        assert(frame_chunk(all, bpf, j) =~= frame_chunk(pcm, bpf, j)) by {
            assert forall|c: int| 0 <= c < pcm.len() implies #[trigger] frame_chunk(
                all,
                bpf,
                j,
            )[c] == frame_chunk(pcm, bpf, j)[c] by {
                assert(pcm[c].len() == channel_len(pcm));
                assert(all[c].subrange((j * bpf) as int, (k * bpf) as int) =~= pcm[c].subrange(
                    (j * bpf) as int,
                    (k * bpf) as int,
                ));
            }
        }
        let a = stream_offsets(all, level, bits, bpf, k);
        let b = stream_offsets(pcm, level, bits, bpf, k);
        assert forall|i: int| 0 <= i < k implies a[i] == b[i] by {
            if i < j {
                assert(a[i] == stream_offsets(all, level, bits, bpf, j)[i]);
                assert(b[i] == stream_offsets(pcm, level, bits, bpf, j)[i]);
            }
        }
        assert(a =~= b);
    } else {
        assert(stream_offsets(all, level, bits, bpf, 0) =~= stream_offsets(
            pcm,
            level,
            bits,
            bpf,
            0,
        ));
    }
}

/// A chunk of valid samples can be encoded.
pub proof fn lemma_chunk_valid(pcm: Seq<Seq<i32>>, bits: u16, from: int, to: int)
    requires
        1 <= pcm.len() <= 2,
        same_lengths(pcm),
        all_in_depth(pcm, bits),
        is_depth(bits),
        0 <= from <= to <= channel_len(pcm),
    ensures
        frame_error(chunk(pcm, from, to), bits) is None,
        channel_len(chunk(pcm, from, to)) == to - from,
        same_lengths(chunk(pcm, from, to)),
{
    let ch = chunk(pcm, from, to);
    assert forall|c: int| 0 <= c < ch.len() implies (#[trigger] ch[c]).len() == to - from by {
        assert(pcm[c].len() == channel_len(pcm));
    }
    assert(channel_len(ch) == to - from);
    assert forall|c: int, i: int| 0 <= c < ch.len() && 0 <= i < ch[c].len() implies in_depth(
        #[trigger] ch[c][i],
        bits,
    ) by {
        assert(pcm[c].len() == channel_len(pcm));
        assert(in_depth(pcm[c][from + i], bits));
    }
}

/// A copy of samples `from` to `to` of every channel.
fn cut(pcm: &Vec<Vec<i32>>, from: usize, to: usize) -> (r: Vec<Vec<i32>>)
    requires
        from <= to,
        forall|c: int| 0 <= c < pcm@.len() ==> to <= (#[trigger] pcm@[c])@.len(),
    ensures
        contents(r@) == chunk(contents(pcm@), from as int, to as int),
{
    let mut out: Vec<Vec<i32>> = Vec::new();
    let ghost want = chunk(contents(pcm@), from as int, to as int);
    let mut c: usize = 0;
    assert(contents(out@) =~= want.take(0));
    while c < pcm.len()
        invariant
            c <= pcm@.len(),
            from <= to,
            want == chunk(contents(pcm@), from as int, to as int),
            forall|d: int| 0 <= d < pcm@.len() ==> to <= (#[trigger] pcm@[d])@.len(),
            contents(out@) == want.take(c as int),
        decreases pcm@.len() - c,
    {
        let ghost before = contents(out@);
        let piece = slice_to_vec(slice_subrange(pcm[c].as_slice(), from, to));
        let ghost p = piece@;
        out.push(piece);
        assert(contents(out@) =~= before.push(p));
        assert(want.take(c as int + 1) =~= before.push(p));
        c = c + 1;
    }
    assert(want.take(c as int) =~= want);
    out
}

/// Streaming encoder: takes samples in pieces of any size and returns the
/// whole file at the end.
#[derive(Clone)]
pub struct ApeEncoder {
    pub cfg: EncoderConfig,
    /// Samples that do not fill a frame yet.
    pub pending: Vec<Vec<i32>>,
    /// The frames so far.
    pub logical: Vec<u8>,
    /// Byte offset of every frame.
    pub frame_offsets: Vec<u32>,
    /// Blocks in the last frame.
    pub last_frame_blocks: u32,
    /// Blocks pushed so far.
    pub total_blocks: u64,
    /// All samples pushed so far.
    pub pushed: Ghost<Seq<Seq<i32>>>,
}

impl ApeEncoder {
    /// `k` frames have been encoded from the samples pushed so far, and
    /// the rest is pending.
    pub open spec fn encoded(&self, k: nat) -> bool {
        let pcm = self.pushed@;
        let n = channel_len(pcm);
        let bpf = self.cfg.blocks_per_frame as nat;
        &&& config_error(self.cfg) is None
        &&& pcm.len() == self.cfg.channels
        &&& same_lengths(pcm)
        &&& all_in_depth(pcm, self.cfg.bits_per_sample)
        &&& self.total_blocks == n
        &&& k * bpf <= n
        &&& contents(self.pending@) == chunk(pcm, (k * bpf) as int, n as int)
        &&& self.logical@ == stream_bytes(
            pcm,
            self.cfg.compression_level,
            self.cfg.bits_per_sample,
            bpf,
            k,
        )
        &&& self.frame_offsets@ == stream_offsets(
            pcm,
            self.cfg.compression_level,
            self.cfg.bits_per_sample,
            bpf,
            k,
        )
        &&& self.last_frame_blocks == if k > 0 {
            bpf
        } else {
            0
        }
    }

    /// All full frames have been encoded.
    pub open spec fn wf(&self) -> bool {
        let n = channel_len(self.pushed@);
        let bpf = self.cfg.blocks_per_frame as nat;
        bpf > 0 && self.encoded(n / bpf)
    }

    /// An encoder for `cfg`.
    pub fn new(cfg: EncoderConfig) -> (r: Result<Self>)
        ensures
            match config_error(cfg) {
                Some(e) => r == Err::<ApeEncoder, Error>(e),
                None => {
                    &&& r is Ok
                    &&& r->Ok_0.wf()
                    &&& r->Ok_0.cfg == cfg
                    &&& r->Ok_0.pushed@ == no_samples(cfg.channels as nat)
                },
            },
    {
        match cfg.validate() {
            Err(e) => {
                return Err(e);
            },
            Ok(_) => {},
        }
        let mut pending: Vec<Vec<i32>> = Vec::new();
        let mut c: u16 = 0;
        assert(contents(pending@) =~= no_samples(0));
        while c < cfg.channels
            invariant
                c <= cfg.channels,
                contents(pending@) == no_samples(c as nat),
            decreases cfg.channels - c,
        {
            let ghost before = contents(pending@);
            pending.push(Vec::new());
            c = c + 1;
            assert(contents(pending@) =~= before.push(Seq::empty()));
            assert(contents(pending@) =~= no_samples(c as nat));
        }
        let ghost pcm = no_samples(cfg.channels as nat);
        let bpf: u32 = cfg.blocks_per_frame;
        let r = ApeEncoder {
            cfg,
            pending,
            logical: Vec::new(),
            frame_offsets: Vec::new(),
            last_frame_blocks: 0,
            total_blocks: 0,
            pushed: Ghost(pcm),
        };
        proof {
            vstd::arithmetic::div_mod::lemma_basic_div(0, bpf as int);
            assert(channel_len(pcm) == 0);
            assert(0nat * bpf as nat == 0) by (nonlinear_arith);
            assert(chunk(pcm, 0, 0) =~= pcm) by {
                assert forall|c: int| 0 <= c < pcm.len() implies #[trigger] chunk(pcm, 0, 0)[c]
                    == pcm[c] by {
                    assert(pcm[c].subrange(0, 0) =~= pcm[c]);
                }
            }
            assert(r.logical@ =~= Seq::<u8>::empty());
            assert(r.frame_offsets@ =~= stream_offsets(
                pcm,
                r.cfg.compression_level,
                r.cfg.bits_per_sample,
                bpf as nat,
                0,
            ));
        }
        Ok(r)
    }

    /// The configuration.
    pub fn config(&self) -> (r: &EncoderConfig)
        ensures
            *r == self.cfg,
    {
        &self.cfg
    }

    /// Blocks pushed so far.
    pub fn total_blocks(&self) -> (r: u64)
        requires
            self.wf(),
        ensures
            r == channel_len(self.pushed@),
    {
        self.total_blocks
    }

    /// Frames encoded so far.
    pub fn frames_encoded(&self) -> (r: usize)
        requires
            self.wf(),
        ensures
            r == channel_len(self.pushed@) / self.cfg.blocks_per_frame as nat,
    {
        self.frame_offsets.len()
    }

    /// Encodes frame `k`.
    #[verifier::rlimit(40)]
    fn emit_frame(&mut self, frame: &Vec<Vec<i32>>, Ghost(k): Ghost<nat>)
        requires
            config_error(old(self).cfg) is None,
            old(self).pushed@.len() == old(self).cfg.channels,
            same_lengths(old(self).pushed@),
            all_in_depth(old(self).pushed@, old(self).cfg.bits_per_sample),
            k * old(self).cfg.blocks_per_frame <= channel_len(old(self).pushed@),
            contents(frame@) == frame_chunk(
                old(self).pushed@,
                old(self).cfg.blocks_per_frame as nat,
                k,
            ),
            old(self).logical@ == stream_bytes(
                old(self).pushed@,
                old(self).cfg.compression_level,
                old(self).cfg.bits_per_sample,
                old(self).cfg.blocks_per_frame as nat,
                k,
            ),
            old(self).frame_offsets@ == stream_offsets(
                old(self).pushed@,
                old(self).cfg.compression_level,
                old(self).cfg.bits_per_sample,
                old(self).cfg.blocks_per_frame as nat,
                k,
            ),
        ensures
            final(self).cfg == old(self).cfg,
            final(self).pending == old(self).pending,
            final(self).pushed == old(self).pushed,
            final(self).total_blocks == old(self).total_blocks,
            final(self).logical@ == stream_bytes(
                old(self).pushed@,
                old(self).cfg.compression_level,
                old(self).cfg.bits_per_sample,
                old(self).cfg.blocks_per_frame as nat,
                k + 1,
            ),
            final(self).frame_offsets@ == stream_offsets(
                old(self).pushed@,
                old(self).cfg.compression_level,
                old(self).cfg.bits_per_sample,
                old(self).cfg.blocks_per_frame as nat,
                k + 1,
            ),
            final(self).last_frame_blocks == frame_end(
                channel_len(old(self).pushed@),
                old(self).cfg.blocks_per_frame as nat,
                k,
            ) - k * old(self).cfg.blocks_per_frame,
    {
        let ghost pcm = self.pushed@;
        let ghost bpf = self.cfg.blocks_per_frame as nat;
        let ghost n = channel_len(pcm);
        proof {
            assert(k * bpf >= 0) by (nonlinear_arith);
            assert((k + 1) * bpf == k * bpf + bpf) by (nonlinear_arith);
            lemma_chunk_valid(
                pcm,
                self.cfg.bits_per_sample,
                (k * bpf) as int,
                frame_end(n, bpf, k),
            );
        }
        match encode_frame(
            frame.as_slice(),
            self.cfg.compression_level,
            self.cfg.bits_per_sample,
        ) {
            Err(_) => {},
            Ok(f) => {
                let at: u32 = (self.logical.len() as u64 % 0x1_0000_0000) as u32;
                self.frame_offsets.push(at);
                push_slice(&mut self.logical, f.bytes.as_slice());
                self.last_frame_blocks = f.blocks;
                proof {
                    let a = stream_offsets(
                        pcm,
                        self.cfg.compression_level,
                        self.cfg.bits_per_sample,
                        bpf,
                        k,
                    );
                    let b = stream_offsets(
                        pcm,
                        self.cfg.compression_level,
                        self.cfg.bits_per_sample,
                        bpf,
                        k + 1,
                    );
                    assert(b =~= a.push(at));
                }
            },
        }
    }

    /// Encodes the full frames among the pending samples.
    #[verifier::rlimit(40)]
    fn drain_full_frames(&mut self)
        requires
            exists|k: nat| old(self).encoded(k),
        ensures
            final(self).wf(),
            final(self).cfg == old(self).cfg,
            final(self).pushed == old(self).pushed,
    {
        let ghost k0 = choose|k: nat| self.encoded(k);
        let bpf: usize = self.cfg.blocks_per_frame as usize;
        let ghost pcm = self.pushed@;
        let ghost n = channel_len(pcm);
        proof {
            assert(contents(self.pending@).len() == self.pending@.len());
            assert(k0 * bpf >= 0) by (nonlinear_arith);
            assert forall|c: int| 0 <= c < self.pending@.len() implies (#[trigger] self.pending@[c])@
                == pcm[c].subrange((k0 * bpf) as int, n as int) by {
                assert(contents(self.pending@)[c] == self.pending@[c]@);
            }
            assert(pcm[0].len() == n);
        }
        let have: usize = self.pending[0].len();
        let count: usize = have / bpf;
        proof {
            vstd::arithmetic::div_mod::lemma_fundamental_div_mod(have as int, bpf as int);
            vstd::arithmetic::div_mod::lemma_mod_bound(have as int, bpf as int);
            assert(count * bpf == bpf * count) by (nonlinear_arith);
        }
        let mut i: usize = 0;
        while i < count
            invariant
                i <= count,
                bpf == self.cfg.blocks_per_frame,
                bpf > 0,
                config_error(self.cfg) is None,
                pcm == self.pushed@,
                self.pushed == old(self).pushed,
                self.cfg == old(self).cfg,
                n == channel_len(pcm),
                pcm.len() == self.cfg.channels,
                same_lengths(pcm),
                all_in_depth(pcm, self.cfg.bits_per_sample),
                self.total_blocks == n,
                have == n - k0 * bpf,
                count * bpf <= have,
                self.pending@.len() == pcm.len(),
                forall|c: int|
                    0 <= c < self.pending@.len() ==> (#[trigger] self.pending@[c])@
                        == pcm[c].subrange((k0 * bpf) as int, n as int),
                k0 * bpf <= n,
                self.logical@ == stream_bytes(
                    pcm,
                    self.cfg.compression_level,
                    self.cfg.bits_per_sample,
                    bpf as nat,
                    (k0 + i) as nat,
                ),
                self.frame_offsets@ == stream_offsets(
                    pcm,
                    self.cfg.compression_level,
                    self.cfg.bits_per_sample,
                    bpf as nat,
                    (k0 + i) as nat,
                ),
                self.last_frame_blocks == if k0 + i > 0 {
                    bpf as int
                } else {
                    0
                },
            decreases count - i,
        {
            proof {
                assert((i + 1) * bpf <= count * bpf) by (nonlinear_arith)
                    requires
                        i + 1 <= count,
                        bpf > 0,
                ;
                assert((i + 1) * bpf == i * bpf + bpf) by (nonlinear_arith);
                assert(i * bpf >= 0 && k0 * bpf >= 0) by (nonlinear_arith)
                    requires
                        i >= 0,
                        k0 >= 0,
                        bpf >= 0,
                ;
                assert((k0 + i) * bpf == k0 * bpf + i * bpf) by (nonlinear_arith);
                assert((k0 + i + 1) * bpf == k0 * bpf + i * bpf + bpf) by (nonlinear_arith);
                assert forall|c: int| 0 <= c < self.pending@.len() implies (i + 1) * bpf <= (
                #[trigger] self.pending@[c])@.len() by {
                    assert(pcm[c].len() == n);
                }
            }
            let frame = cut(&self.pending, i * bpf, i * bpf + bpf);
            proof {
                let a = contents(frame@);
                let b = frame_chunk(pcm, bpf as nat, (k0 + i) as nat);
                assert forall|c: int| 0 <= c < a.len() implies #[trigger] a[c] == b[c] by {
                    assert(pcm[c].len() == n);
                    assert(contents(self.pending@)[c] == self.pending@[c]@);
                    assert(a[c] =~= b[c]);
                }
                assert(a =~= b);
            }
            self.emit_frame(&frame, Ghost((k0 + i) as nat));
            i = i + 1;
        }
        let ghost before = self.pending@;
        proof {
            assert(count * bpf >= 0) by (nonlinear_arith);
            assert forall|c: int| 0 <= c < self.pending@.len() implies have <= (
            #[trigger] self.pending@[c])@.len() by {
                assert(pcm[c].len() == n);
            }
        }
        let rest = cut(&self.pending, count * bpf, have);
        self.pending = rest;
        proof {
            let k = (k0 + count) as nat;
            assert(k * bpf == k0 * bpf + count * bpf) by (nonlinear_arith)
                requires
                    k == k0 + count,
            ;
            let a = contents(self.pending@);
            let b = chunk(pcm, (k * bpf) as int, n as int);
            assert forall|c: int| 0 <= c < a.len() implies #[trigger] a[c] == b[c] by {
                assert(pcm[c].len() == n);
                assert(contents(before)[c] == before[c]@);
                assert(a[c] =~= b[c]);
            }
            assert(a =~= b);
            assert(n / bpf as nat == k) by {
                vstd::arithmetic::div_mod::lemma_fundamental_div_mod_converse(
                    n as int,
                    bpf as int,
                    k as int,
                    n - k * bpf,
                );
            }
        }
    }

    /// Takes the samples `more`, one vector per channel.
    fn push_channels(&mut self, more: Vec<Vec<i32>>) -> (r: Result<()>)
        requires
            old(self).wf(),
            old(self).total_blocks + channel_len(contents(more@)) <= u64::MAX,
        ensures
            final(self).wf(),
            final(self).cfg == old(self).cfg,
            match push_error(old(self).cfg, contents(more@)) {
                Some(e) => r == Err::<(), Error>(e) && *final(self) == *old(self),
                None => r == Ok::<(), Error>(()) && final(self).pushed@ == appended(
                    old(self).pushed@,
                    contents(more@),
                ),
            },
    {
        let ghost chs = contents(more@);
        assert(chs.len() == more@.len());
        if more.len() != self.cfg.channels as usize {
            return Err(
                Error::InvalidInput("pushed channel count disagrees with the configuration"),
            );
        }
        let n: usize = more[0].len();
        assert(n == channel_len(chs));
        if !lengths_are(more.as_slice(), n) {
            return Err(Error::InvalidInput("PCM channels disagree on length"));
        }
        assert(same_lengths(chs));
        if !depths_are(more.as_slice(), self.cfg.bits_per_sample) {
            return Err(Error::InvalidInput("sample outside the bit depth's range"));
        }
        let ghost pcm = self.pushed@;
        let ghost m = channel_len(pcm);
        let ghost bpf = self.cfg.blocks_per_frame as nat;
        let ghost k = m / bpf;
        let ghost was = self.pending@;
        let mut joined: Vec<Vec<i32>> = Vec::new();
        let mut c: usize = 0;
        proof {
            assert(contents(was).len() == was.len());
        }
        while c < more.len()
            invariant
                c <= more@.len(),
                more@.len() == self.pending@.len(),
                self.pending@ == was,
                *self == *old(self),
                joined@.len() == c,
                forall|d: int| 0 <= d < c ==> (#[trigger] joined@[d])@ == was[d]@ + more@[d]@,
            decreases more@.len() - c,
        {
            let mut buf = slice_to_vec(self.pending[c].as_slice());
            let mut extra = slice_to_vec(more[c].as_slice());
            buf.append(&mut extra);
            joined.push(buf);
            c = c + 1;
        }
        self.pending = joined;
        self.total_blocks = self.total_blocks + n as u64;
        self.pushed = Ghost(appended(pcm, chs));
        proof {
            let all = self.pushed@;
            vstd::arithmetic::div_mod::lemma_fundamental_div_mod(m as int, bpf as int);
            vstd::arithmetic::div_mod::lemma_mod_bound(m as int, bpf as int);
            assert(k * bpf == bpf * k) by (nonlinear_arith);
            assert(k * bpf >= 0) by (nonlinear_arith);
            assert forall|d: int| 0 <= d < all.len() implies (#[trigger] all[d]).len() == m + n by {
                assert(pcm[d].len() == m);
                assert(chs[d].len() == n);
            }
            assert(channel_len(all) == m + n);
            assert forall|d: int, i: int| 0 <= d < all.len() && 0 <= i < all[d].len() implies
                in_depth(#[trigger] all[d][i], self.cfg.bits_per_sample) by {
                assert(pcm[d].len() == m);
                if i < m {
                    assert(in_depth(pcm[d][i], self.cfg.bits_per_sample));
                } else {
                    assert(in_depth(chs[d][i - m], self.cfg.bits_per_sample));
                }
            }
            lemma_stream_prefix(
                pcm,
                chs,
                self.cfg.compression_level,
                self.cfg.bits_per_sample,
                bpf,
                k,
            );
            let a = contents(self.pending@);
            let b = chunk(all, (k * bpf) as int, (m + n) as int);
            assert forall|d: int| 0 <= d < a.len() implies #[trigger] a[d] == b[d] by {
                assert(pcm[d].len() == m);
                assert(contents(was)[d] == was[d]@);
                assert(a[d] =~= b[d]);
            }
            assert(a =~= b);
            assert(self.encoded(k));
        }
        self.drain_full_frames();
        Ok(())
    }

    /// Takes samples, one slice per channel.
    pub fn push_samples(&mut self, channels: &[&[i32]]) -> (r: Result<()>)
        requires
            old(self).wf(),
            old(self).total_blocks + channel_len(slices(channels@)) <= u64::MAX,
        ensures
            final(self).wf(),
            final(self).cfg == old(self).cfg,
            match push_error(old(self).cfg, slices(channels@)) {
                Some(e) => r == Err::<(), Error>(e) && *final(self) == *old(self),
                None => r == Ok::<(), Error>(()) && final(self).pushed@ == appended(
                    old(self).pushed@,
                    slices(channels@),
                ),
            },
    {
        let mut more: Vec<Vec<i32>> = Vec::new();
        let ghost want = slices(channels@);
        let mut c: usize = 0;
        assert(contents(more@) =~= want.take(0));
        while c < channels.len()
            invariant
                c <= channels@.len(),
                want == slices(channels@),
                contents(more@) == want.take(c as int),
            decreases channels@.len() - c,
        {
            let ghost before = contents(more@);
            let ch = slice_to_vec(channels[c]);
            let ghost p = ch@;
            more.push(ch);
            assert(contents(more@) =~= before.push(p));
            assert(want.take(c as int + 1) =~= before.push(p));
            c = c + 1;
        }
        assert(want.take(c as int) =~= want);
        self.push_channels(more)
    }

    /// Takes interleaved bytes.
    pub fn push_interleaved_bytes(&mut self, bytes: &[u8]) -> (r: Result<()>)
        requires
            old(self).wf(),
            old(self).total_blocks + bytes@.len() <= u64::MAX,
        ensures
            final(self).wf(),
            final(self).cfg == old(self).cfg,
            match deinterleaved(bytes@, old(self).cfg.bits_per_sample, old(self).cfg.channels) {
                Err(e) => r == Err::<(), Error>(e) && *final(self) == *old(self),
                Ok(chs) => r == Ok::<(), Error>(()) && final(self).pushed@ == appended(
                    old(self).pushed@,
                    chs,
                ),
            },
    {
        let chans = match deinterleave_pcm_bytes(
            bytes,
            self.cfg.bits_per_sample,
            self.cfg.channels,
        ) {
            Err(e) => {
                return Err(e);
            },
            Ok(c) => c,
        };
        proof {
            let chs = contents(chans@);
            crate::pcm::law_interleave_deinterleaved(
                bytes@,
                self.cfg.bits_per_sample,
                self.cfg.channels,
            );
            lemma_fit_is_depth(chs, self.cfg.bits_per_sample);
            let block = self.cfg.channels as nat * crate::pcm::sample_len(
                self.cfg.bits_per_sample,
            );
            assert(block > 0) by (nonlinear_arith)
                requires
                    block == self.cfg.channels * (self.cfg.bits_per_sample / 8),
                    self.cfg.channels >= 1,
                    self.cfg.bits_per_sample / 8 >= 1,
            ;
            vstd::arithmetic::div_mod::lemma_div_nonincreasing(bytes@.len() as int, block as int);
        }
        self.push_channels(chans)
    }
}

/// The contents of the slices.
pub open spec fn slices(v: Seq<&[i32]>) -> Seq<Seq<i32>> {
    v.map_values(|s: &[i32]| s@)
}

/// Fitting the byte layout is being of the bit depth.
pub proof fn lemma_fit_is_depth(pcm: Seq<Seq<i32>>, bits: u16)
    requires
        is_depth(bits),
    ensures
        all_fit(pcm, bits) == all_in_depth(pcm, bits),
{
    lemma2_to64();
    assert(pow2(7) == 0x80 && pow2(15) == 0x8000 && pow2(23) == 0x80_0000);
    if all_fit(pcm, bits) {
        assert forall|c: int, i: int| 0 <= c < pcm.len() && 0 <= i < pcm[c].len() implies in_depth(
            #[trigger] pcm[c][i],
            bits,
        ) by {
            assert(crate::pcm::fits_depth(pcm[c][i], bits));
        }
    }
    if all_in_depth(pcm, bits) {
        assert forall|c: int, i: int|
            0 <= c < pcm.len() && 0 <= i < pcm[c].len() implies crate::pcm::fits_depth(
            #[trigger] pcm[c][i],
            bits,
        ) by {
            assert(in_depth(pcm[c][i], bits));
        }
    }
}

// ---------------------------------------------------------------------
// Whole files
// ---------------------------------------------------------------------

/// The WAV header of a file with `n` blocks.
pub open spec fn wav_header_of(cfg: EncoderConfig, n: nat) -> Seq<u8> {
    match cfg.wav_header {
        Some(h) => h@,
        None => {
            let len = n * (cfg.channels * (cfg.bits_per_sample / 8)) as nat;
            wav_header_for(
                cfg.channels,
                cfg.sample_rate,
                cfg.bits_per_sample,
                if len <= u32::MAX {
                    len as u32
                } else {
                    u32::MAX
                },
            )
        },
    }
}

/// The byte rate of a WAV header that is made up fits in 32 bits.
pub open spec fn byte_rate_fits(cfg: EncoderConfig) -> bool {
    cfg.wav_header is Some || cfg.sample_rate * wav_align(cfg.channels, cfg.bits_per_sample)
        <= u32::MAX
}

/// Everything that the file of the samples `pcm` stores.
#[verifier::opaque]
pub open spec fn layout_of(cfg: EncoderConfig, pcm: Seq<Seq<i32>>) -> LayoutModel {
    let n = channel_len(pcm);
    let bpf = cfg.blocks_per_frame as nat;
    let t = frame_count(n, bpf);
    let wav = wav_header_of(cfg, n);
    let start = 76 + 4 * t + wav.len();
    let offsets = stream_offsets(pcm, cfg.compression_level, cfg.bits_per_sample, bpf, t);
    LayoutModel {
        descriptor_padding: seq![0u8, 0],
        compression_level: cfg.compression_level,
        format_flags: 0,
        blocks_per_frame: cfg.blocks_per_frame,
        final_frame_blocks: (n - (t - 1) * bpf) as u32,
        total_frames: t as u32,
        bits_per_sample: cfg.bits_per_sample,
        channels: cfg.channels,
        sample_rate: cfg.sample_rate,
        seek_table: Seq::new(t, |i: int| ((start + offsets[i]) % 0x1_0000_0000) as u32),
        wav_header: wav,
        frame_data: word_layout(
            stream_bytes(pcm, cfg.compression_level, cfg.bits_per_sample, bpf, t),
        ),
        terminating_data: cfg.terminating_data@,
    }
}

/// The fields of the layout of a file.
pub proof fn lemma_layout_fields(cfg: EncoderConfig, pcm: Seq<Seq<i32>>)
    requires
        cfg.blocks_per_frame > 0,
    ensures
        ({
            let l = layout_of(cfg, pcm);
            let n = channel_len(pcm);
            let bpf = cfg.blocks_per_frame as nat;
            let t = frame_count(n, bpf);
            &&& l.descriptor_padding.len() == 2
            &&& l.compression_level == cfg.compression_level
            &&& l.blocks_per_frame == cfg.blocks_per_frame
            &&& l.final_frame_blocks == (n - (t - 1) * bpf) as u32
            &&& l.total_frames == t as u32
            &&& l.bits_per_sample == cfg.bits_per_sample
            &&& l.channels == cfg.channels
            &&& l.sample_rate == cfg.sample_rate
            &&& l.seek_table.len() == t
            &&& l.audio_start() == 76 + 4 * t + l.wav_header.len()
            &&& l.wav_header == wav_header_of(cfg, n)
            &&& l.frame_data == word_layout(
                stream_bytes(pcm, cfg.compression_level, cfg.bits_per_sample, bpf, t),
            )
            &&& l.terminating_data == cfg.terminating_data@
        }),
{
    reveal(layout_of);
}

/// A seek entry of a file.
pub proof fn lemma_layout_seek(cfg: EncoderConfig, pcm: Seq<Seq<i32>>, i: int)
    requires
        0 <= i < frame_count(channel_len(pcm), cfg.blocks_per_frame as nat),
        layout_of(cfg, pcm).audio_start() + stream_bytes(
            pcm,
            cfg.compression_level,
            cfg.bits_per_sample,
            cfg.blocks_per_frame as nat,
            i as nat,
        ).len() <= u32::MAX,
    ensures
        layout_of(cfg, pcm).seek_table[i] == layout_of(cfg, pcm).audio_start() + stream_bytes(
            pcm,
            cfg.compression_level,
            cfg.bits_per_sample,
            cfg.blocks_per_frame as nat,
            i as nat,
        ).len(),
{
    reveal(layout_of);
}

/// The file of the samples `pcm`.
pub open spec fn encoded_file(cfg: EncoderConfig, pcm: Seq<Seq<i32>>) -> Result<Seq<u8>> {
    let layout = layout_of(cfg, pcm);
    if layout.audio_start() > u32::MAX {
        Err(Error::InvalidInput("header region exceeds 32 bits"))
    } else {
        Ok(layout.file() + cfg.trailing_tag@)
    }
}

/// The number of frames, in terms of the full ones.
pub proof fn lemma_frame_count(n: nat, bpf: nat)
    requires
        bpf > 0,
    ensures
        frame_count(n, bpf) == n / bpf + if n % bpf != 0 || n == 0 {
            1nat
        } else {
            0nat
        },
        n / bpf * bpf <= n,
        n - n / bpf * bpf == n % bpf,
        frame_count(n, bpf) >= 1,
        (frame_count(n, bpf) - 1) * bpf <= n,
        n <= frame_count(n, bpf) * bpf,
{
    let k = n / bpf;
    let r = n % bpf;
    vstd::arithmetic::div_mod::lemma_fundamental_div_mod(n as int, bpf as int);
    vstd::arithmetic::div_mod::lemma_mod_bound(n as int, bpf as int);
    assert(bpf * k == k * bpf) by (nonlinear_arith);
    assert((k + 1) * bpf == k * bpf + bpf) by (nonlinear_arith);
    assert((k - 1) * bpf == k * bpf - bpf) by (nonlinear_arith);
    if n == 0 {
        vstd::arithmetic::div_mod::lemma_basic_div(0, bpf as int);
        assert(0 * bpf == 0) by (nonlinear_arith);
        assert(1 * bpf == bpf);
    } else if r == 0 {
        vstd::arithmetic::div_mod::lemma_fundamental_div_mod_converse(
            n + bpf - 1,
            bpf as int,
            k as int,
            bpf - 1,
        );
        if k == 0 {
            assert(0 * bpf == 0) by (nonlinear_arith);
        }
    } else {
        vstd::arithmetic::div_mod::lemma_fundamental_div_mod_converse(
            n + bpf - 1,
            bpf as int,
            k as int + 1,
            r - 1,
        );
    }
}

/// The seek entries of frames at `offsets`, the first byte of a frame
/// being at `start`.
fn seek_entries(start: u32, offsets: &Vec<u32>) -> (r: Vec<u32>)
    ensures
        r@ == Seq::new(
            offsets@.len(),
            |i: int| ((start + offsets@[i]) % 0x1_0000_0000) as u32,
        ),
{
    let ghost want = Seq::new(
        offsets@.len(),
        |i: int| ((start + offsets@[i]) % 0x1_0000_0000) as u32,
    );
    let mut out: Vec<u32> = Vec::new();
    let mut i: usize = 0;
    assert(out@ =~= want.take(0));
    while i < offsets.len()
        invariant
            i <= offsets@.len(),
            want == Seq::new(
                offsets@.len(),
                |i: int| ((start + offsets@[i]) % 0x1_0000_0000) as u32,
            ),
            out@ == want.take(i as int),
        decreases offsets@.len() - i,
    {
        out.push(start.wrapping_add(offsets[i]));
        assert(out@ =~= want.take(i as int + 1));
        i = i + 1;
    }
    assert(want.take(i as int) =~= want);
    out
}

/// The WAV header of a file with `total_blocks` blocks.
fn header_for(
    stored: Option<Vec<u8>>,
    channels: u16,
    sample_rate: u32,
    bits_per_sample: u16,
    total_blocks: u64,
    Ghost(cfg): Ghost<EncoderConfig>,
) -> (r: Vec<u8>)
    requires
        config_error(cfg) is None,
        byte_rate_fits(cfg),
        stored == cfg.wav_header,
        channels == cfg.channels,
        sample_rate == cfg.sample_rate,
        bits_per_sample == cfg.bits_per_sample,
    ensures
        r@ == wav_header_of(cfg, total_blocks as nat),
{
    match stored {
        Some(h) => h,
        None => {
            assert(channels * (bits_per_sample / 8) <= 6) by (nonlinear_arith)
                requires
                    0 <= channels <= 2,
                    0 <= bits_per_sample / 8 <= 3,
            ;
            let align: u64 = channels as u64 * (bits_per_sample / 8) as u64;
            proof {
                let x = total_blocks as nat;
                let y = align as nat;
                assert(x * y <= u64::MAX * 6) by (nonlinear_arith)
                    requires
                        x <= u64::MAX,
                        y <= 6,
                ;
            }
            let data_len: u128 = total_blocks as u128 * align as u128;
            let len: u32 = if data_len <= 0xFFFF_FFFF {
                data_len as u32
            } else {
                0xFFFF_FFFF
            };
            canonical_wav_header(channels, sample_rate, bits_per_sample, len)
        },
    }
}

impl ApeEncoder {
    /// Encodes what is pending; without samples, an empty frame.
    fn flush_pending(&mut self)
        requires
            old(self).wf(),
        ensures
            final(self).cfg == old(self).cfg,
            final(self).pushed == old(self).pushed,
            final(self).total_blocks == channel_len(old(self).pushed@),
            ({
                let cfg = old(self).cfg;
                let pcm = old(self).pushed@;
                let bpf = cfg.blocks_per_frame as nat;
                let t = frame_count(channel_len(pcm), bpf);
                &&& final(self).logical@ == stream_bytes(
                    pcm,
                    cfg.compression_level,
                    cfg.bits_per_sample,
                    bpf,
                    t,
                )
                &&& final(self).frame_offsets@ == stream_offsets(
                    pcm,
                    cfg.compression_level,
                    cfg.bits_per_sample,
                    bpf,
                    t,
                )
                &&& final(self).last_frame_blocks == channel_len(pcm) - (t - 1) * bpf
            }),
    {
        let ghost pcm = self.pushed@;
        let ghost n = channel_len(pcm);
        let ghost bpf = self.cfg.blocks_per_frame as nat;
        let ghost k = n / bpf;
        let ghost t = frame_count(n, bpf);
        proof {
            lemma_frame_count(n, bpf);
            assert(contents(self.pending@).len() == self.pending@.len());
            assert(contents(self.pending@)[0] == self.pending@[0]@);
            assert(pcm[0].len() == n);
            assert((k + 1) * bpf == k * bpf + bpf) by (nonlinear_arith);
            assert(k * bpf >= 0) by (nonlinear_arith);
            assert((t - 1) * bpf == t * bpf - bpf) by (nonlinear_arith);
        }
        let have: usize = self.pending[0].len();
        if have > 0 || self.frame_offsets.len() == 0 {
            proof {
                assert forall|c: int| 0 <= c < self.pending@.len() implies have <= (
                #[trigger] self.pending@[c])@.len() by {
                    assert(contents(self.pending@)[c] == self.pending@[c]@);
                    assert(pcm[c].len() == n);
                }
            }
            let frame = cut(&self.pending, 0, have);
            proof {
                let a = contents(frame@);
                let b = frame_chunk(pcm, bpf, k);
                vstd::arithmetic::div_mod::lemma_mod_bound(n as int, bpf as int);
                assert forall|c: int| 0 <= c < a.len() implies #[trigger] a[c] == b[c] by {
                    assert(contents(self.pending@)[c] == self.pending@[c]@);
                    assert(pcm[c].len() == n);
                    assert(a[c] =~= b[c]);
                }
                assert(a =~= b);
            }
            self.emit_frame(&frame, Ghost(k));
            assert(t == k + 1);
        } else {
            assert(t == k);
        }
    }

    /// Encodes what is pending and returns the file. Without samples the
    /// file has one empty frame.
    pub fn finish(self) -> (r: Result<Vec<u8>>)
        requires
            self.wf(),
            byte_rate_fits(self.cfg),
        ensures
            match encoded_file(self.cfg, self.pushed@) {
                Ok(file) => r is Ok && r->Ok_0@ == file,
                Err(e) => r == Err::<Vec<u8>, Error>(e),
            },
    {
        let mut enc = self;
        enc.flush_pending();
        enc.seal()
    }

    /// Puts the encoded frames into a file.
    fn seal(self) -> (r: Result<Vec<u8>>)
        requires
            config_error(self.cfg) is None,
            byte_rate_fits(self.cfg),
            self.total_blocks == channel_len(self.pushed@),
            ({
                let cfg = self.cfg;
                let pcm = self.pushed@;
                let bpf = cfg.blocks_per_frame as nat;
                let t = frame_count(channel_len(pcm), bpf);
                &&& self.logical@ == stream_bytes(
                    pcm,
                    cfg.compression_level,
                    cfg.bits_per_sample,
                    bpf,
                    t,
                )
                &&& self.frame_offsets@ == stream_offsets(
                    pcm,
                    cfg.compression_level,
                    cfg.bits_per_sample,
                    bpf,
                    t,
                )
                &&& self.last_frame_blocks == channel_len(pcm) - (t - 1) * bpf
            }),
        ensures
            match encoded_file(self.cfg, self.pushed@) {
                Ok(file) => r is Ok && r->Ok_0@ == file,
                Err(e) => r == Err::<Vec<u8>, Error>(e),
            },
    {
        let ghost cfg = self.cfg;
        let ghost pcm = self.pushed@;
        let ApeEncoder {
            cfg: config,
            pending: _,
            logical,
            frame_offsets,
            last_frame_blocks,
            total_blocks,
            pushed: _,
        } = self;
        let EncoderConfig {
            compression_level,
            channels,
            sample_rate,
            bits_per_sample,
            blocks_per_frame,
            wav_header: stored_header,
            terminating_data,
            trailing_tag,
        } = config;
        proof {
            reveal(layout_of);
        }
        let wav_header = header_for(
            stored_header,
            channels,
            sample_rate,
            bits_per_sample,
            total_blocks,
            Ghost(cfg),
        );
        let start: u128 = 76 + frame_offsets.len() as u128 * 4 + wav_header.len() as u128;
        assert(start == layout_of(cfg, pcm).audio_start());
        if start > 0xFFFF_FFFF {
            return Err(Error::InvalidInput("header region exceeds 32 bits"));
        }
        let total_frames: u32 = frame_offsets.len() as u32;
        let seek_table = seek_entries(start as u32, &frame_offsets);
        assert(seek_table@ =~= layout_of(cfg, pcm).seek_table);
        let layout = FileLayout {
            descriptor_padding: [0, 0],
            compression_level,
            format_flags: 0,
            blocks_per_frame,
            final_frame_blocks: last_frame_blocks,
            total_frames,
            bits_per_sample,
            channels,
            sample_rate,
            seek_table,
            wav_header,
            frame_data: to_le_word_layout(logical),
            terminating_data,
        };
        proof {
            assert(layout@.descriptor_padding =~= seq![0u8, 0]);
            assert(layout@ == layout_of(cfg, pcm));
        }
        let mut file = layout.serialize();
        push_slice(&mut file, trailing_tag.as_slice());
        Ok(file)
    }
}

/// A copy of the channels.
fn copy_channels(channels: &[Vec<i32>]) -> (r: Vec<Vec<i32>>)
    ensures
        contents(r@) == contents(channels@),
{
    let mut out: Vec<Vec<i32>> = Vec::new();
    let ghost want = contents(channels@);
    let mut c: usize = 0;
    assert(contents(out@) =~= want.take(0));
    while c < channels.len()
        invariant
            c <= channels@.len(),
            want == contents(channels@),
            contents(out@) == want.take(c as int),
        decreases channels@.len() - c,
    {
        let ghost before = contents(out@);
        let ch = slice_to_vec(channels[c].as_slice());
        let ghost p = ch@;
        out.push(ch);
        assert(contents(out@) =~= before.push(p));
        assert(want.take(c as int + 1) =~= before.push(p));
        c = c + 1;
    }
    assert(want.take(c as int) =~= want);
    out
}

/// The file of the samples `pcm` under `cfg`, or what is wrong with
/// either.
pub open spec fn encoded_pcm(cfg: EncoderConfig, pcm: Seq<Seq<i32>>) -> Result<Seq<u8>> {
    match config_error(cfg) {
        Some(e) => Err(e),
        None => match push_error(cfg, pcm) {
            Some(e) => Err(e),
            None => encoded_file(cfg, pcm),
        },
    }
}

/// Samples appended to nothing.
pub proof fn lemma_appended_to_none(pcm: Seq<Seq<i32>>)
    ensures
        appended(no_samples(pcm.len()), pcm) == pcm,
{
    let a = appended(no_samples(pcm.len()), pcm);
    assert forall|c: int| 0 <= c < pcm.len() implies #[trigger] a[c] == pcm[c] by {
        assert(a[c] =~= pcm[c]);
    }
    assert(a =~= pcm);
}

/// Encodes channels of samples into a file.
pub fn encode_pcm(cfg: EncoderConfig, channels: &[Vec<i32>]) -> (r: Result<Vec<u8>>)
    requires
        config_error(cfg) is None && push_error(cfg, contents(channels@)) is None
            ==> byte_rate_fits(cfg),
    ensures
        match encoded_pcm(cfg, contents(channels@)) {
            Ok(file) => r is Ok && r->Ok_0@ == file,
            Err(e) => r == Err::<Vec<u8>, Error>(e),
        },
{
    let mut enc = match ApeEncoder::new(cfg) {
        Err(e) => {
            return Err(e);
        },
        Ok(enc) => enc,
    };
    let more = copy_channels(channels);
    proof {
        let chs = contents(more@);
        assert(chs.len() == more@.len());
        if chs.len() > 0 {
            assert(chs[0] == more@[0]@);
            assert(more@[0]@.len() == more@[0].len());
        }
        if chs.len() == cfg.channels {
            lemma_appended_to_none(chs);
        }
    }
    match enc.push_channels(more) {
        Err(e) => {
            return Err(e);
        },
        Ok(_) => {},
    }
    enc.finish()
}

// ---------------------------------------------------------------------
// WAV files
// ---------------------------------------------------------------------

/// The fields of a `fmt ` chunk that matter.
#[derive(Debug, Clone, Copy, PartialEq, Eq)]
pub struct WavFormat {
    /// Encoding of the samples.
    pub tag: u16,
    /// Number of channels.
    pub channels: u16,
    /// Sample rate.
    pub sample_rate: u32,
    /// Bits per sample.
    pub bits_per_sample: u16,
}

/// A WAV file in three parts: everything up to the samples, the samples,
/// and what follows them.
#[derive(Debug, Clone, PartialEq, Eq)]
pub struct WavSplit<'a> {
    /// Number of channels.
    pub channels: u16,
    /// Sample rate.
    pub sample_rate: u32,
    /// Bits per sample.
    pub bits_per_sample: u16,
    /// Everything up to the samples.
    pub header: &'a [u8],
    /// The samples, a whole number of blocks.
    pub pcm: &'a [u8],
    /// What follows the samples.
    pub terminating: &'a [u8],
}

/// What a [`WavSplit`] stands for.
pub ghost struct WavModel {
    pub channels: u16,
    pub sample_rate: u32,
    pub bits_per_sample: u16,
    pub header: Seq<u8>,
    pub pcm: Seq<u8>,
    pub terminating: Seq<u8>,
}

impl<'a> View for WavSplit<'a> {
    type V = WavModel;

    open spec fn view(&self) -> WavModel {
        WavModel {
            channels: self.channels,
            sample_rate: self.sample_rate,
            bits_per_sample: self.bits_per_sample,
            header: self.header@,
            pcm: self.pcm@,
            terminating: self.terminating@,
        }
    }
}

/// The four bytes at `pos`.
pub open spec fn tag_at(wav: Seq<u8>, pos: int) -> Seq<u8> {
    wav.subrange(pos, pos + 4)
}

/// The `fmt ` chunk whose body is at `body`.
pub open spec fn format_at(wav: Seq<u8>, body: int) -> WavFormat {
    WavFormat {
        tag: le16_at(wav, body) as u16,
        channels: le16_at(wav, body + 2) as u16,
        sample_rate: le32_at(wav, body + 4) as u32,
        bits_per_sample: le16_at(wav, body + 14) as u16,
    }
}

/// The parts of a file whose samples start at `body`, `len` bytes by the
/// chunk header.
pub open spec fn wav_parts(wav: Seq<u8>, body: int, len: nat, format: Option<WavFormat>) -> Result<
    WavModel,
> {
    match format {
        None => Err(Error::InvalidInput("data chunk precedes fmt chunk")),
        Some(f) => {
            let align = f.channels as nat * (f.bits_per_sample / 8) as nat;
            let there = if len <= wav.len() - body {
                len
            } else {
                (wav.len() - body) as nat
            };
            let end = body + (there - there % align);
            if f.tag != 1 && f.tag != 0xFFFE {
                Err(Error::InvalidInput("WAV is not integer PCM"))
            } else if align == 0 {
                Err(Error::InvalidInput("fmt chunk has zero block align"))
            } else {
                Ok(
                    WavModel {
                        channels: f.channels,
                        sample_rate: f.sample_rate,
                        bits_per_sample: f.bits_per_sample,
                        header: wav.take(body),
                        pcm: wav.subrange(body, end),
                        terminating: wav.skip(end),
                    },
                )
            }
        },
    }
}

/// Walking the chunks from `pos` on, `format` being the `fmt ` chunk seen
/// so far.
pub open spec fn wav_walk(wav: Seq<u8>, pos: int, format: Option<WavFormat>) -> Result<WavModel>
    decreases wav.len() - pos,
{
    let id = tag_at(wav, pos);
    let len = le32_at(wav, pos + 4);
    let body = pos + 8;
    let next = body + len + len % 2;
    if body > wav.len() {
        Err(Error::InvalidInput("WAV truncated"))
    } else if id == seq![102u8, 109, 116, 32] && len < 16 {
        Err(Error::InvalidInput("fmt chunk shorter than 16 bytes"))
    } else if id == seq![102u8, 109, 116, 32] && body + 16 > wav.len() {
        Err(Error::InvalidInput("WAV truncated"))
    } else if id == seq![100u8, 97, 116, 97] {
        wav_parts(wav, body, len, format)
    } else if next > usize::MAX {
        Err(Error::InvalidInput("WAV chunk length overflow"))
    } else if next >= wav.len() {
        Err(Error::InvalidInput("WAV has no data chunk"))
    } else {
        wav_walk(
            wav,
            next,
            if id == seq![102u8, 109, 116, 32] {
                Some(format_at(wav, body))
            } else {
                format
            },
        )
    }
}

/// The parts of a WAV file, or what is wrong with it.
pub open spec fn wav_split(wav: Seq<u8>) -> Result<WavModel> {
    if wav.len() < 4 {
        Err(Error::InvalidInput("WAV truncated"))
    } else if tag_at(wav, 0) != seq![82u8, 73, 70, 70] {
        Err(Error::InvalidInput("not a RIFF/WAVE file"))
    } else if wav.len() < 12 {
        Err(Error::InvalidInput("WAV truncated"))
    } else if tag_at(wav, 8) != seq![87u8, 65, 86, 69] {
        Err(Error::InvalidInput("not a RIFF/WAVE file"))
    } else {
        wav_walk(wav, 12, None)
    }
}

/// Whether the four bytes at `pos` are `a`, `b`, `c`, `d`.
fn is_tag(wav: &[u8], pos: usize, a: u8, b: u8, c: u8, d: u8) -> (r: bool)
    requires
        pos + 4 <= wav@.len(),
    ensures
        r == (tag_at(wav@, pos as int) == seq![a, b, c, d]),
{
    assert(wav@.len() == wav.len());
    let same = wav[pos] == a && wav[pos + 1] == b && wav[pos + 2] == c && wav[pos + 3] == d;
    proof {
        let t = tag_at(wav@, pos as int);
        let s = seq![a, b, c, d];
        assert(t[0] == wav@[pos as int] && t[1] == wav@[pos + 1] && t[2] == wav@[pos + 2] && t[3]
            == wav@[pos + 3]);
        assert(s[0] == a && s[1] == b && s[2] == c && s[3] == d);
        if same {
            assert(t =~= s);
        }
    }
    same
}

impl<'a> WavSplit<'a> {
    /// Splits a WAV file of integer samples whose `fmt ` chunk precedes
    /// its `data` chunk.
    pub fn parse(wav: &'a [u8]) -> (r: Result<WavSplit<'a>>)
        ensures
            match wav_split(wav@) {
                Ok(m) => r is Ok && r->Ok_0@ == m,
                Err(e) => r == Err::<WavSplit<'a>, Error>(e),
            },
    {
        let total: usize = wav.len();
        if total < 4 {
            return Err(Error::InvalidInput("WAV truncated"));
        }
        if !is_tag(wav, 0, 82, 73, 70, 70) {
            return Err(Error::InvalidInput("not a RIFF/WAVE file"));
        }
        if total < 12 {
            return Err(Error::InvalidInput("WAV truncated"));
        }
        if !is_tag(wav, 8, 87, 65, 86, 69) {
            return Err(Error::InvalidInput("not a RIFF/WAVE file"));
        }
        let mut pos: usize = 12;
        let mut format: Option<WavFormat> = None;
        loop
            invariant
                total == wav@.len(),
                pos <= total,
                wav_walk(wav@, pos as int, format) == wav_split(wav@),
            decreases total - pos,
        {
            if total - pos < 8 {
                return Err(Error::InvalidInput("WAV truncated"));
            }
            let len: usize = read_le32(wav, pos + 4) as usize;
            let body: usize = pos + 8;
            if is_tag(wav, pos, 102, 109, 116, 32) {
                assert(seq![102u8, 109, 116, 32][0] != seq![100u8, 97, 116, 97][0]);
                if len < 16 {
                    return Err(Error::InvalidInput("fmt chunk shorter than 16 bytes"));
                }
                if total - body < 16 {
                    return Err(Error::InvalidInput("WAV truncated"));
                }
                format = Some(
                    WavFormat {
                        tag: read_le16(wav, body),
                        channels: read_le16(wav, body + 2),
                        sample_rate: read_le32(wav, body + 4),
                        bits_per_sample: read_le16(wav, body + 14),
                    },
                );
            } else if is_tag(wav, pos, 100, 97, 116, 97) {
                return Self::split_at(wav, body, len, format);
            }
            let room: usize = usize::MAX - body;
            if len > room || len % 2 > room - len {
                return Err(Error::InvalidInput("WAV chunk length overflow"));
            }
            let next: usize = body + len + len % 2;
            if next >= total {
                return Err(Error::InvalidInput("WAV has no data chunk"));
            }
            pos = next;
        }
    }

    /// Splits a file whose samples start at `body`.
    fn split_at(wav: &'a [u8], body: usize, len: usize, format: Option<WavFormat>) -> (r: Result<
        WavSplit<'a>,
    >)
        requires
            body <= wav@.len(),
        ensures
            match wav_parts(wav@, body as int, len as nat, format) {
                Ok(m) => r is Ok && r->Ok_0@ == m,
                Err(e) => r == Err::<WavSplit<'a>, Error>(e),
            },
    {
        let f = match format {
            None => {
                return Err(Error::InvalidInput("data chunk precedes fmt chunk"));
            },
            Some(f) => f,
        };
        if f.tag != 1 && f.tag != 0xFFFE {
            return Err(Error::InvalidInput("WAV is not integer PCM"));
        }
        assert(f.channels * (f.bits_per_sample / 8) <= 0xFFFF * 8191) by (nonlinear_arith)
            requires
                0 <= f.channels <= 0xFFFF,
                0 <= f.bits_per_sample / 8 <= 8191,
        ;
        let align: usize = f.channels as usize * (f.bits_per_sample / 8) as usize;
        if align == 0 {
            return Err(Error::InvalidInput("fmt chunk has zero block align"));
        }
        let total: usize = wav.len();
        let there: usize = if len <= total - body {
            len
        } else {
            total - body
        };
        proof {
            vstd::arithmetic::div_mod::lemma_mod_decreases(there as nat, align as nat);
        }
        let end: usize = body + (there - there % align);
        assert(wav@.subrange(0, body as int) =~= wav@.take(body as int));
        assert(wav@.subrange(end as int, total as int) =~= wav@.skip(end as int));
        Ok(
            WavSplit {
                channels: f.channels,
                sample_rate: f.sample_rate,
                bits_per_sample: f.bits_per_sample,
                header: slice_subrange(wav, 0, body),
                pcm: slice_subrange(wav, body, end),
                terminating: slice_subrange(wav, end, total),
            },
        )
    }
}

/// The configuration for the parts of a WAV file.
pub open spec fn is_wav_config(cfg: EncoderConfig, m: WavModel, level: CompressionLevel) -> bool {
    &&& cfg.compression_level == level
    &&& cfg.channels == m.channels
    &&& cfg.sample_rate == m.sample_rate
    &&& cfg.bits_per_sample == m.bits_per_sample
    &&& cfg.blocks_per_frame == DEFAULT_BLOCKS_PER_FRAME
    &&& cfg.wav_header is Some
    &&& cfg.wav_header->Some_0@ == m.header
    &&& cfg.terminating_data@ == m.terminating
    &&& cfg.trailing_tag@.len() == 0
}

/// Encodes a WAV file, storing its header and what follows the samples as
/// they are.
pub fn encode_wav(wav: &[u8], level: CompressionLevel) -> (r: Result<Vec<u8>>)
    ensures
        match wav_split(wav@) {
            Err(e) => r == Err::<Vec<u8>, Error>(e),
            Ok(m) => exists|cfg: EncoderConfig|
                {
                    &&& #[trigger] is_wav_config(cfg, m, level)
                    &&& match config_error(cfg) {
                        Some(e) => r == Err::<Vec<u8>, Error>(e),
                        None => match deinterleaved(m.pcm, m.bits_per_sample, m.channels) {
                            Err(e) => r == Err::<Vec<u8>, Error>(e),
                            Ok(pcm) => match encoded_file(cfg, pcm) {
                                Ok(file) => r is Ok && r->Ok_0@ == file,
                                Err(e) => r == Err::<Vec<u8>, Error>(e),
                            },
                        },
                    }
                },
        },
{
    let split = match WavSplit::parse(wav) {
        Err(e) => {
            return Err(e);
        },
        Ok(s) => s,
    };
    let mut cfg = EncoderConfig::new(
        level,
        split.channels,
        split.sample_rate,
        split.bits_per_sample,
    );
    cfg.wav_header = Some(slice_to_vec(split.header));
    cfg.terminating_data = slice_to_vec(split.terminating);
    let ghost config = cfg;
    assert(is_wav_config(config, split@, level));
    let mut enc = match ApeEncoder::new(cfg) {
        Err(e) => {
            return Err(e);
        },
        Ok(enc) => enc,
    };
    assert(split.pcm@.len() == split.pcm.len());
    match enc.push_interleaved_bytes(split.pcm) {
        Err(e) => {
            return Err(e);
        },
        Ok(_) => {},
    }
    proof {
        let pcm = deinterleaved(split.pcm@, split.bits_per_sample, split.channels)->Ok_0;
        assert(pcm.len() == split.channels);
        lemma_appended_to_none(pcm);
    }
    enc.finish()
}

} // verus!
