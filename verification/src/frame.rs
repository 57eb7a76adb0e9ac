//! One frame: a prologue with the checksum and optional flags, and the
//! range-coded residual arrays.
//!
//! All frames of a file share one bit array of 32-bit words, and a frame
//! starts at a byte offset within it. The first word holds a 31-bit
//! checksum; its top bit tells whether a flags word follows. A frame whose
//! channels are all silent has no payload. Otherwise one pad byte
//! precedes the coder payload, and two arrays are coded value by value in
//! turns.

use vstd::prelude::*;

use crate::cascade::{zero_vec, zeros};
use crate::entropy::{
    path_of, read_pairs, running_start, EntropyInit, PairRun, ResidualDecoder, ResidualDecoderModel,
};
use crate::error::{Error, Result};
use crate::pipeline::contents;
use crate::range_coder::{primed, BitInput, BitModel, RangeDecoder};

verus! {

/// Initial magnitude sum of every array of a frame.
pub const FRAME_KSUM_INIT: u32 = 16384;

/// Initial bit count of every array of a frame.
pub const FRAME_K_INIT: u32 = 10;

/// Pad bytes between the prologue and the coder payload.
pub const FRAME_PRIME_PAD_BYTES: usize = 1;

/// Largest number of blocks in a frame.
pub const MAX_FRAME_BLOCKS: u32 = 0x10_0000;

/// Initial coder state of every array of a frame.
pub open spec fn frame_init() -> EntropyInit {
    EntropyInit { k: FRAME_K_INIT, ksum: FRAME_KSUM_INIT }
}

/// Initial coder state of every array of a frame.
pub fn frame_entropy_init() -> (r: EntropyInit)
    ensures
        r == frame_init(),
{
    EntropyInit { k: FRAME_K_INIT, ksum: FRAME_KSUM_INIT }
}

/// The largest buffer that bit positions can address with room to spare.
pub open spec fn addressable(len: nat) -> bool {
    len <= 0x1000_0000_0000_0000
}

// ---------------------------------------------------------------------
// Checksum
// ---------------------------------------------------------------------

/// One bit of the reflected CRC-32.
pub open spec fn crc_bit(c: u32) -> u32 {
    if c & 1 != 0 {
        (c >> 1u32) ^ 0xEDB8_8320u32
    } else {
        c >> 1u32
    }
}

/// `n` bits of the reflected CRC-32.
pub open spec fn crc_bits(c: u32, n: nat) -> u32
    decreases n,
{
    if n == 0 {
        c
    } else {
        crc_bit(crc_bits(c, (n - 1) as nat))
    }
}

/// The CRC register after the bytes of `data`, from all ones.
pub open spec fn crc_register(data: Seq<u8>) -> u32
    decreases data.len(),
{
    if data.len() == 0 {
        0xFFFF_FFFF
    } else {
        crc_bits(crc_register(data.drop_last()) ^ (data.last() as u32), 8)
    }
}

/// The CRC-32 of `data`: the register, inverted.
pub open spec fn crc_of(data: Seq<u8>) -> u32 {
    !crc_register(data)
}

/// The reflected CRC-32 of `data` with polynomial `0xEDB88320`.
pub fn crc32(data: &[u8]) -> (r: u32)
    ensures
        r == crc_of(data@),
{
    let mut crc: u32 = 0xFFFF_FFFF;
    let mut i: usize = 0;
    assert(data@.take(0) =~= Seq::<u8>::empty());
    while i < data.len()
        invariant
            i <= data@.len(),
            crc == crc_register(data@.take(i as int)),
        decreases data@.len() - i,
    {
        crc = crc ^ (data[i] as u32);
        let ghost start = crc;
        let mut k: u32 = 0;
        while k < 8
            invariant
                k <= 8,
                crc == crc_bits(start, k as nat),
            decreases 8 - k,
        {
            if crc & 1 != 0 {
                crc = (crc >> 1u32) ^ 0xEDB8_8320u32;
            } else {
                crc = crc >> 1u32;
            }
            k = k + 1;
        }
        assert(data@.take(i as int + 1).drop_last() =~= data@.take(i as int));
        i = i + 1;
    }
    assert(data@.take(i as int) =~= data@);
    !crc
}

/// The checksum that a frame stores: the upper 31 bits of the CRC-32.
pub open spec fn stored_crc(data: Seq<u8>) -> u32 {
    crc_of(data) / 2
}

// ---------------------------------------------------------------------
// Flags and prologue
// ---------------------------------------------------------------------

/// Flags of a frame.
#[derive(Debug, Clone, Copy, PartialEq, Eq, Hash, Default, Structural)]
pub struct FrameFlags(pub u32);

impl FrameFlags {
    /// The mono channel, or the second stereo channel, is silent.
    pub const CH0_SILENT: u32 = 1;

    /// The first stereo channel is silent.
    pub const CH1_SILENT: u32 = 2;

    /// The two stereo channels are the same; one array codes both.
    pub const PSEUDO_STEREO: u32 = 4;

    /// Whether one of the bits in `bit` is set.
    pub open spec fn carries(self, bit: u32) -> bool {
        self.0 & bit != 0
    }

    /// Every channel is silent.
    pub open spec fn silences(self, channels: u16) -> bool {
        if channels == 1 {
            self.carries(1)
        } else if channels == 2 {
            self.carries(1) && self.carries(2)
        } else {
            false
        }
    }

    /// Whether `bit` is set.
    pub fn has(self, bit: u32) -> (r: bool)
        ensures
            r == self.carries(bit),
    {
        self.0 & bit != 0
    }

    /// Whether every channel of a frame with `channels` channels is
    /// silent.
    pub fn all_silent(self, channels: u16) -> (r: bool)
        ensures
            r == self.silences(channels),
    {
        if channels == 1 {
            self.has(1)
        } else if channels == 2 {
            self.has(1) && self.has(2)
        } else {
            false
        }
    }
}

/// The prologue of a frame.
#[derive(Debug, Clone, Copy, PartialEq, Eq)]
pub struct FramePrologue {
    /// Upper 31 bits of the CRC-32 of the frame's samples.
    pub crc31: u32,
    /// Flags, where they are stored.
    pub flags: Option<FrameFlags>,
    /// Length of the prologue in bytes.
    pub len: usize,
}

/// The prologue at the current position.
pub open spec fn prologue_at(input: BitModel) -> FramePrologue {
    let word = input.next_word();
    if word >= 0x8000_0000 {
        FramePrologue {
            crc31: (word - 0x8000_0000) as u32,
            flags: Some(FrameFlags(input.advanced_by(4).next_word() as u32)),
            len: 8,
        }
    } else {
        FramePrologue { crc31: word as u32, flags: None, len: 4 }
    }
}

impl FramePrologue {
    /// The flags; none are set where they are not stored.
    pub open spec fn flag_word(self) -> FrameFlags {
        match self.flags {
            Some(f) => f,
            None => FrameFlags(0),
        }
    }

    /// The flags; none are set where they are not stored.
    fn flags_or_none(&self) -> (r: FrameFlags)
        ensures
            r == self.flag_word(),
    {
        match self.flags {
            Some(f) => f,
            None => FrameFlags(0),
        }
    }

    /// Reads the prologue at the current position.
    pub fn read(input: &mut BitInput<'_>) -> (r: Self)
        requires
            old(input).bit_pos <= u64::MAX - 64,
        ensures
            r == prologue_at(old(input)@),
            final(input)@ == old(input)@.advanced_by(r.len as nat),
            final(input)@.bit_pos == old(input)@.bit_pos + 8 * r.len,
    {
        let ghost start = input@;
        proof {
            reveal_with_fuel(BitModel::advanced_by, 9);
        }
        let word0 = input.read_u32();
        if word0 >= 0x8000_0000 {
            let flags = input.read_u32();
            assert(input@ == start.advanced_by(8));
            FramePrologue { crc31: word0 - 0x8000_0000, flags: Some(FrameFlags(flags)), len: 8 }
        } else {
            FramePrologue { crc31: word0, flags: None, len: 4 }
        }
    }

    /// Whether the samples in `pcm_bytes` have the stored checksum.
    pub fn matches_pcm_crc(&self, pcm_bytes: &[u8]) -> (r: bool)
        ensures
            r == (stored_crc(pcm_bytes@) == self.crc31),
    {
        crc32(pcm_bytes) / 2 == self.crc31
    }
}

// ---------------------------------------------------------------------
// Residual arrays
// ---------------------------------------------------------------------

/// The residual arrays of a frame.
#[derive(Debug, Clone, PartialEq, Eq)]
pub struct FrameResiduals {
    /// The prologue.
    pub prologue: FramePrologue,
    /// One array per coded array, in stream order; a silent frame has one
    /// array of zeros per channel.
    pub arrays: Vec<Vec<i32>>,
    /// Bit position after the last symbol.
    pub end_bit_pos: u64,
    /// Whether the flags say that every channel is silent.
    pub silent: bool,
}

/// What a [`FrameResiduals`] stands for.
pub ghost struct FrameModel {
    pub prologue: FramePrologue,
    pub arrays: Seq<Seq<i32>>,
    pub end_bit_pos: nat,
    pub silent: bool,
}

impl View for FrameResiduals {
    type V = FrameModel;

    open spec fn view(&self) -> FrameModel {
        FrameModel {
            prologue: self.prologue,
            arrays: contents(self.arrays@),
            end_bit_pos: self.end_bit_pos as nat,
            silent: self.silent,
        }
    }
}

/// The bit array of the frames, from a byte offset on.
pub open spec fn frame_input(audio: Seq<u8>, offset: nat) -> BitModel {
    BitModel { data: audio, le_words: true, bit_pos: 8 * offset, overrun: 0 }
}

/// The coder over the payload that follows the prologue.
pub open spec fn payload_decoder(audio: Seq<u8>, offset: nat, version: u16) -> ResidualDecoderModel {
    let input = frame_input(audio, offset);
    ResidualDecoderModel {
        path: path_of(version),
        rc: primed(input.advanced_by((prologue_at(input).len + 1) as nat)),
        state: running_start(frame_init()),
    }
}

/// The residual arrays of the frame at a byte offset of the bit array.
pub open spec fn frame_at(
    audio: Seq<u8>,
    offset: nat,
    version: u16,
    channels: u16,
    blocks: u32,
) -> Result<FrameModel> {
    let input = frame_input(audio, offset);
    let prologue = prologue_at(input);
    let n = blocks as nat;
    let d = payload_decoder(audio, offset, version);
    if !(1 <= channels <= 2) {
        Err(Error::Malformed("channel count outside the staged 1..=2"))
    } else if blocks > MAX_FRAME_BLOCKS {
        Err(Error::Malformed("frame block count exceeds the sane bound"))
    } else if offset + 4 > audio.len() {
        Err(Error::Truncated)
    } else if prologue.flag_word().silences(channels) {
        Ok(
            FrameModel {
                prologue,
                arrays: Seq::new(channels as nat, |k: int| zeros(n)),
                end_bit_pos: 8 * (offset + prologue.len as nat),
                silent: true,
            },
        )
    } else {
        match payload_arrays(d, channels == 2 && !prologue.flag_word().carries(4), n) {
            Err(e) => Err(e),
            Ok((arrays, end_bit_pos)) => Ok(
                FrameModel { prologue, arrays, end_bit_pos, silent: false },
            ),
        }
    }
}

/// Arrays of zeros for a silent frame.
fn silent_arrays(channels: u16, n: usize) -> (r: Vec<Vec<i32>>)
    ensures
        contents(r@) == Seq::new(channels as nat, |k: int| zeros(n as nat)),
{
    let mut r: Vec<Vec<i32>> = Vec::new();
    let mut c: u16 = 0;
    while c < channels
        invariant
            c <= channels,
            contents(r@) == Seq::new(c as nat, |k: int| zeros(n as nat)),
        decreases channels - c,
    {
        let ghost before = contents(r@);
        let a = zero_vec(n);
        r.push(a);
        c = c + 1;
        assert(contents(r@) =~= before.push(zeros(n as nat)));
        assert(contents(r@) =~= Seq::new(c as nat, |k: int| zeros(n as nat)));
    }
    r
}

/// Reads one array of `n` values.
fn decode_single(dec: &mut ResidualDecoder<'_>, n: usize) -> (r: Result<Vec<i32>>)
    requires
        old(dec).wf(),
        n <= MAX_FRAME_BLOCKS,
        old(dec).rc.input.bit_pos <= u64::MAX - 0x1000_0000,
    ensures
        match old(dec)@.run(n as nat) {
            (last, Ok(a)) => r is Ok && r->Ok_0@ == a && final(dec)@ == last,
            (last, Err(e)) => r == Err::<Vec<i32>, Error>(e),
        },
        final(dec).rc.input.bit_pos <= old(dec).rc.input.bit_pos + 120 * n,
{
    let ghost start = dec@;
    let ghost from = dec.rc.input.bit_pos;
    let mut out: Vec<i32> = Vec::new();
    let mut i: usize = 0;
    while i < n
        invariant
            i <= n <= MAX_FRAME_BLOCKS,
            dec.wf(),
            from <= u64::MAX - 0x1000_0000,
            dec.rc.input.bit_pos <= from + 120 * i,
            start.run(i as nat) == (dec@, Ok::<Seq<i32>, Error>(out@)),
            start == old(dec)@,
            from == old(dec).rc.input.bit_pos,
        decreases n - i,
    {
        let r = dec.decode_residual();
        proof {
            if r is Err {
                lemma_run_stops(start, i as nat + 1, n as nat);
            }
        }
        match r {
            Err(e) => {
                return Err(e);
            },
            Ok(v) => {
                out.push(v);
            },
        }
        i = i + 1;
    }
    Ok(out)
}

/// A run that has failed does not recover.
proof fn lemma_run_stops(d: ResidualDecoderModel, i: nat, n: nat)
    requires
        i <= n,
        d.run(i).1 is Err,
    ensures
        d.run(n) == d.run(i),
    decreases n,
{
    if i < n {
        lemma_run_stops(d, i, (n - 1) as nat);
    }
}

/// A run of pairs that has failed does not recover.
proof fn lemma_pairs_stop(d: ResidualDecoderModel, i: nat, n: nat)
    requires
        i <= n,
        read_pairs(d.path, d.rc, d.state, d.state, i).outcome is Err,
    ensures
        read_pairs(d.path, d.rc, d.state, d.state, n) == read_pairs(
            d.path,
            d.rc,
            d.state,
            d.state,
            i,
        ),
    decreases n,
{
    if i < n {
        lemma_pairs_stop(d, i, (n - 1) as nat);
    }
}

/// Reads two arrays of `n` values in turns.
fn decode_pairs(dec: &mut ResidualDecoder<'_>, n: usize) -> (r: Result<(Vec<i32>, Vec<i32>)>)
    requires
        old(dec).wf(),
        n <= MAX_FRAME_BLOCKS,
        old(dec).rc.input.bit_pos <= u64::MAX - 0x1000_0000,
        old(dec)@.state == running_start(frame_init()),
    ensures
        ({
            let d = old(dec)@;
            let run = read_pairs(d.path, d.rc, d.state, d.state, n as nat);
            match run.outcome {
                Ok((a, b)) => r is Ok && r->Ok_0.0@ == a && r->Ok_0.1@ == b && final(dec)@.rc
                    == run.rc,
                Err(e) => r == Err::<(Vec<i32>, Vec<i32>), Error>(e),
            }
        }),
        final(dec).rc.input.bit_pos <= old(dec).rc.input.bit_pos + 240 * n,
{
    let ghost d = dec@;
    let ghost from = dec.rc.input.bit_pos;
    let mut a: Vec<i32> = Vec::new();
    let mut b: Vec<i32> = Vec::new();
    let mut s0 = frame_entropy_init();
    let mut s1 = frame_entropy_init();
    let mut i: usize = 0;
    while i < n
        invariant
            i <= n <= MAX_FRAME_BLOCKS,
            dec.wf(),
            d == old(dec)@,
            from == old(dec).rc.input.bit_pos,
            from <= u64::MAX - 0x1000_0000,
            dec.rc.input.bit_pos <= from + 240 * i,
            dec@.path == d.path,
            s0.k <= 31,
            s1.k <= 31,
            read_pairs(d.path, d.rc, d.state, d.state, i as nat) == (PairRun {
                rc: dec@.rc,
                s0: running_start(s0),
                s1: running_start(s1),
                outcome: Ok((a@, b@)),
            }),
        decreases n - i,
    {
        dec.reset_state(s0);
        let r0 = dec.decode_residual();
        proof {
            if r0 is Err {
                lemma_pairs_stop(d, i as nat + 1, n as nat);
            }
        }
        let x = match r0 {
            Err(e) => {
                return Err(e);
            },
            Ok(v) => v,
        };
        s0 = dec.running_state();
        dec.reset_state(s1);
        let r1 = dec.decode_residual();
        proof {
            if r1 is Err {
                lemma_pairs_stop(d, i as nat + 1, n as nat);
            }
        }
        let y = match r1 {
            Err(e) => {
                return Err(e);
            },
            Ok(v) => v,
        };
        s1 = dec.running_state();
        a.push(x);
        b.push(y);
        i = i + 1;
    }
    Ok((a, b))
}

/// Decodes the frame at `frame_byte_offset` of the bit array `audio` into
/// its residual arrays.
pub fn decode_frame_residuals(
    audio: &[u8],
    frame_byte_offset: usize,
    file_version: u16,
    channels: u16,
    blocks: u32,
) -> (r: Result<FrameResiduals>)
    requires
        addressable(audio@.len()),
    ensures
        match frame_at(audio@, frame_byte_offset as nat, file_version, channels, blocks) {
            Ok(m) => r is Ok && r->Ok_0@ == m,
            Err(e) => r == Err::<FrameResiduals, Error>(e),
        },
{
    if channels < 1 || channels > 2 {
        return Err(Error::Malformed("channel count outside the staged 1..=2"));
    }
    if blocks > MAX_FRAME_BLOCKS {
        return Err(Error::Malformed("frame block count exceeds the sane bound"));
    }
    if audio.len() < 4 || frame_byte_offset > audio.len() - 4 {
        return Err(Error::Truncated);
    }
    let mut input = BitInput::new_le_words(audio, frame_byte_offset as u64 * 8);
    let ghost start = input@;
    let prologue = FramePrologue::read(&mut input);
    let flags = prologue.flags_or_none();
    let n: usize = blocks as usize;
    if flags.all_silent(channels) {
        return Ok(
            FrameResiduals {
                prologue,
                arrays: silent_arrays(channels, n),
                end_bit_pos: input.bit_pos(),
                silent: true,
            },
        );
    }
    let arrays_end = decode_payload(
        input,
        Ghost(audio@),
        Ghost(frame_byte_offset as nat),
        file_version,
        channels == 2 && !flags.has(FrameFlags::PSEUDO_STEREO),
        n,
    );
    match arrays_end {
        Err(e) => Err(e),
        Ok((arrays, end_bit_pos)) => Ok(
            FrameResiduals { prologue, arrays, end_bit_pos, silent: false },
        ),
    }
}

/// The arrays of a payload and the bit position after them.
pub open spec fn payload_arrays(d: ResidualDecoderModel, two: bool, n: nat) -> Result<
    (Seq<Seq<i32>>, nat),
> {
    if two {
        let run = read_pairs(d.path, d.rc, d.state, d.state, n);
        match run.outcome {
            Err(e) => Err(e),
            Ok((a, b)) => Ok((seq![a, b], run.rc.input.bit_pos)),
        }
    } else {
        match d.run(n) {
            (_, Err(e)) => Err(e),
            (last, Ok(a)) => Ok((seq![a], last.rc.input.bit_pos)),
        }
    }
}

/// Decodes the arrays of a payload, the prologue having been read.
fn decode_payload(
    input: BitInput<'_>,
    Ghost(audio): Ghost<Seq<u8>>,
    Ghost(offset): Ghost<nat>,
    file_version: u16,
    two: bool,
    n: usize,
) -> (r: Result<(Vec<Vec<i32>>, u64)>)
    requires
        n <= MAX_FRAME_BLOCKS,
        input.bit_pos <= u64::MAX - 0x2000_0000,
        input@ == frame_input(audio, offset).advanced_by(
            prologue_at(frame_input(audio, offset)).len as nat,
        ),
    ensures
        match payload_arrays(payload_decoder(audio, offset, file_version), two, n as nat) {
            Err(e) => r == Err::<(Vec<Vec<i32>>, u64), Error>(e),
            Ok((arrays, end)) => r is Ok && contents(r->Ok_0.0@) == arrays && r->Ok_0.1 == end,
        },
{
    let mut input = input;
    let ghost start = frame_input(audio, offset);
    let ghost len = prologue_at(start).len as nat;
    let _pad = input.read_byte();
    assert(input@ == start.advanced_by(len + 1));
    let rc = RangeDecoder::with_input(input);
    let mut dec = ResidualDecoder::with_coder(rc, file_version, frame_entropy_init());
    assert(dec@ == payload_decoder(audio, offset, file_version));
    let mut arrays: Vec<Vec<i32>> = Vec::new();
    if two {
        match decode_pairs(&mut dec, n) {
            Err(e) => {
                return Err(e);
            },
            Ok((a, b)) => {
                let ghost both = seq![a@, b@];
                arrays.push(a);
                arrays.push(b);
                assert(contents(arrays@) =~= both);
            },
        }
    } else {
        match decode_single(&mut dec, n) {
            Err(e) => {
                return Err(e);
            },
            Ok(a) => {
                let ghost one = seq![a@];
                arrays.push(a);
                assert(contents(arrays@) =~= one);
            },
        }
    }
    Ok((arrays, dec.bit_pos()))
}

} // verus!
