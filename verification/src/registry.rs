//! Decoding and encoding as packet streams: the whole file goes in, or
//! comes out, in pieces of any size.
//!
//! The decoder buffers bytes and hands out one frame of samples at a
//! time, as soon as the buffered bytes cover all frames. The encoder
//! takes samples until it is flushed, and then hands out the file.

use vstd::prelude::*;
use vstd::string::*;

use crate::bytes::push_slice;
use crate::decoder::{pcm_of_frame, pcm_of_frames, ApeDecoder};
use crate::encoder::{
    appended, byte_rate_fits, config_error, encoded_file, encoded_pcm, no_samples, ApeEncoder,
    EncoderConfig, DEFAULT_BLOCKS_PER_FRAME,
};
use crate::error::{Error, Result};
use crate::file_header::{audio_end, blocks_of_frame, parsed, FileInfo, FileModel};
use crate::file_laws::{file_info, law_file_round_trip, seekable};
use crate::frame::addressable;
use crate::header::{level_of_code, level_of_label, CompressionLevel};
use crate::pcm::{channel_len, deinterleaved, interleaved};

verus! {

/// Name of the codec.
pub const CODEC_ID: &'static str = "ape";

/// How samples are stored in an interleaved buffer.
#[derive(Debug, Clone, Copy, PartialEq, Eq, Structural)]
pub enum SampleFormat {
    /// Unsigned bytes.
    U8,
    /// Signed 16-bit samples.
    S16,
    /// Signed 24-bit samples.
    S24,
    /// Anything else.
    Other,
}

/// The sample format of a bit depth.
pub open spec fn format_of(bits_per_sample: u16) -> Option<SampleFormat> {
    if bits_per_sample == 8 {
        Some(SampleFormat::U8)
    } else if bits_per_sample == 16 {
        Some(SampleFormat::S16)
    } else if bits_per_sample == 24 {
        Some(SampleFormat::S24)
    } else {
        None
    }
}

/// The bit depth of a sample format.
pub open spec fn bits_of(format: SampleFormat) -> Option<u16> {
    match format {
        SampleFormat::U8 => Some(8),
        SampleFormat::S16 => Some(16),
        SampleFormat::S24 => Some(24),
        SampleFormat::Other => None,
    }
}

/// The sample format that a bit depth decodes to.
pub fn sample_format_for(bits_per_sample: u16) -> (r: Option<SampleFormat>)
    ensures
        r == format_of(bits_per_sample),
{
    if bits_per_sample == 8 {
        Some(SampleFormat::U8)
    } else if bits_per_sample == 16 {
        Some(SampleFormat::S16)
    } else if bits_per_sample == 24 {
        Some(SampleFormat::S24)
    } else {
        None
    }
}

/// The bit depth that a sample format is stored with.
pub fn bits_for_sample_format(format: SampleFormat) -> (r: Option<u16>)
    ensures
        r == bits_of(format),
{
    match format {
        SampleFormat::U8 => Some(8),
        SampleFormat::S16 => Some(16),
        SampleFormat::S24 => Some(24),
        SampleFormat::Other => None,
    }
}

/// Formats and bit depths correspond one to one.
pub proof fn law_formats_and_depths(bits_per_sample: u16, format: SampleFormat)
    ensures
        format_of(bits_per_sample) is Some ==> bits_of(format_of(bits_per_sample)->Some_0)
            == Some(bits_per_sample),
        bits_of(format) is Some ==> format_of(bits_of(format)->Some_0) == Some(format),
{
}

/// Why a stream hands nothing out.
#[derive(Debug, Clone, PartialEq, Eq)]
pub enum StreamError {
    /// More input is needed.
    NeedMore,
    /// Everything has been handed out.
    Eof,
    /// The caller's request is not possible; the payload says why.
    Invalid(&'static str),
    /// Samples of this format cannot be stored.
    UnsupportedFormat,
    /// Decoding or encoding failed.
    Codec(Error),
}

// ---------------------------------------------------------------------
// Decoder
// ---------------------------------------------------------------------

/// One decoded frame.
#[derive(Debug, Clone, PartialEq, Eq)]
pub struct DecodedFrame {
    /// Number of blocks.
    pub samples: u32,
    /// Number of blocks before this frame, if it is a signed 64-bit
    /// number.
    pub pts: Option<i64>,
    /// Interleaved samples.
    pub data: Vec<u8>,
}

/// What a [`DecodedFrame`] stands for.
pub ghost struct DecodedModel {
    pub samples: u32,
    pub pts: Option<i64>,
    pub data: Seq<u8>,
}

impl View for DecodedFrame {
    type V = DecodedModel;

    open spec fn view(&self) -> DecodedModel {
        DecodedModel { samples: self.samples, pts: self.pts, data: self.data@ }
    }
}

/// What a [`FrameworkDecoder`] stands for.
pub ghost struct StreamModel {
    pub buf: Seq<u8>,
    pub info: Option<FileModel>,
    pub next_frame: u32,
    pub blocks_emitted: nat,
    pub flushed: bool,
}

/// A decoder without input.
pub open spec fn fresh_stream() -> StreamModel {
    StreamModel {
        buf: Seq::empty(),
        info: None,
        next_frame: 0,
        blocks_emitted: 0,
        flushed: false,
    }
}

impl StreamModel {
    /// The header, once it is there; while it is not, more input may
    /// still bring it, unless the input has ended.
    pub open spec fn header(self) -> core::result::Result<FileModel, StreamError> {
        match self.info {
            Some(m) => Ok(m),
            None => match parsed(self.buf) {
                Ok(m) => Ok(m),
                Err(e) => if (e == Error::Truncated || e == Error::InvalidMagic) && !self.flushed {
                    Err(StreamError::NeedMore)
                } else {
                    Err(StreamError::Codec(e))
                },
            },
        }
    }

    /// Asking for the next frame: the decoder afterwards, and the frame.
    pub open spec fn receive(self) -> (
        StreamModel,
        core::result::Result<DecodedModel, StreamError>,
    ) {
        match self.header() {
            Err(e) => (self, Err(e)),
            Ok(m) => {
                let known = StreamModel { info: Some(m), ..self };
                if self.next_frame >= m.total_frames {
                    (known, Err(StreamError::Eof))
                } else if self.buf.len() < audio_end(m) {
                    (
                        known,
                        Err(
                            if self.flushed {
                                StreamError::Codec(Error::Truncated)
                            } else {
                                StreamError::NeedMore
                            },
                        ),
                    )
                } else {
                    match pcm_of_frame(self.buf, m, self.next_frame) {
                        Err(e) => (known, Err(StreamError::Codec(e))),
                        Ok(data) => {
                            let samples = blocks_of_frame(m, self.next_frame)->Ok_0;
                            (
                                StreamModel {
                                    next_frame: (self.next_frame + 1) as u32,
                                    blocks_emitted: self.blocks_emitted + samples as nat,
                                    ..known
                                },
                                Ok(
                                    DecodedModel {
                                        samples,
                                        pts: if self.blocks_emitted <= i64::MAX {
                                            Some(self.blocks_emitted as i64)
                                        } else {
                                            None
                                        },
                                        data,
                                    },
                                ),
                            )
                        },
                    }
                }
            },
        }
    }
}

/// Once the input has ended, the decoder never asks for more of it.
pub proof fn law_flushed_never_waits(s: StreamModel)
    requires
        s.flushed,
    ensures
        s.receive().0.flushed,
        s.receive().1 != Err::<DecodedModel, StreamError>(StreamError::NeedMore),
{
}

/// Asking for a frame keeps the input and never goes back: the decoder
/// moves on by one frame, or stays where it is.
pub proof fn law_receive_moves_on(s: StreamModel)
    ensures
        s.receive().0.buf == s.buf,
        s.receive().1 is Ok ==> s.receive().0.next_frame == s.next_frame + 1
            && s.receive().0.blocks_emitted == s.blocks_emitted + s.receive().1->Ok_0.samples,
        s.receive().1 is Err ==> s.receive().0.next_frame == s.next_frame
            && s.receive().0.blocks_emitted == s.blocks_emitted,
{
}

/// Asking for `k` frames one after the other: the decoder afterwards,
/// and their bytes end to end, or the first error.
pub open spec fn received(s: StreamModel, k: nat) -> (
    StreamModel,
    core::result::Result<Seq<u8>, StreamError>,
)
    decreases k,
{
    if k == 0 {
        (s, Ok(Seq::empty()))
    } else {
        let (before, head) = received(s, (k - 1) as nat);
        match head {
            Err(e) => (before, Err(e)),
            Ok(bytes) => {
                let (after, frame) = before.receive();
                match frame {
                    Err(e) => (after, Err(e)),
                    Ok(f) => (after, Ok(bytes + f.data)),
                }
            },
        }
    }
}

/// The frames of a stream are those of the file.
proof fn lemma_received(s: StreamModel, m: FileModel, k: nat)
    requires
        s.header() == Ok::<FileModel, StreamError>(m),
        s.next_frame == 0,
        audio_end(m) <= s.buf.len(),
        k <= m.total_frames,
        pcm_of_frames(s.buf, m, k) is Ok,
    ensures
        received(s, k).1 == Ok::<Seq<u8>, StreamError>(pcm_of_frames(s.buf, m, k)->Ok_0),
        received(s, k).0.header() == Ok::<FileModel, StreamError>(m),
        received(s, k).0.next_frame == k,
        received(s, k).0.buf == s.buf,
    decreases k,
{
    if k > 0 {
        lemma_received(s, m, (k - 1) as nat);
    }
}

/// A stream that holds a whole file hands out what the file decodes to,
/// one frame after the other, and then reports the end.
pub proof fn law_stream_hands_out_the_file(s: StreamModel, m: FileModel)
    requires
        s.header() == Ok::<FileModel, StreamError>(m),
        s.next_frame == 0,
        audio_end(m) <= s.buf.len(),
        pcm_of_frames(s.buf, m, m.total_frames as nat) is Ok,
    ensures
        received(s, m.total_frames as nat).1 == Ok::<Seq<u8>, StreamError>(
            pcm_of_frames(s.buf, m, m.total_frames as nat)->Ok_0,
        ),
        received(s, m.total_frames as nat).0.receive().1 == Err::<DecodedModel, StreamError>(
            StreamError::Eof,
        ),
{
    lemma_received(s, m, m.total_frames as nat);
}

/// Samples that go through an encoder and then, as a stream, through a
/// decoder come out unchanged, followed by the end.
pub proof fn law_stream_round_trip(cfg: EncoderConfig, pcm: Seq<Seq<i32>>, s: StreamModel)
    requires
        encoded_pcm(cfg, pcm) is Ok,
        seekable(cfg, pcm),
        s == (StreamModel { buf: encoded_pcm(cfg, pcm)->Ok_0, ..fresh_stream() }),
    ensures
        ({
            let all = received(s, file_info(cfg, pcm).total_frames as nat);
            &&& all.1 == Ok::<Seq<u8>, StreamError>(
                interleaved(pcm, cfg.bits_per_sample, channel_len(pcm)),
            )
            &&& all.0.receive().1 == Err::<DecodedModel, StreamError>(StreamError::Eof)
        }),
{
    let info = file_info(cfg, pcm);
    law_file_round_trip(cfg, pcm);
    if info.total_frames > 0 {
        assert(pcm_of_frame(s.buf, info, (info.total_frames - 1) as u32) is Ok);
    }
    law_stream_hands_out_the_file(s, info);
}

/// Decoder that takes a file in pieces.
#[derive(Debug)]
pub struct FrameworkDecoder {
    pub buf: Vec<u8>,
    pub info: Option<FileInfo>,
    pub next_frame: u32,
    pub blocks_emitted: u64,
    pub flushed: bool,
}

impl View for FrameworkDecoder {
    type V = StreamModel;

    open spec fn view(&self) -> StreamModel {
        StreamModel {
            buf: self.buf@,
            info: match self.info {
                Some(i) => Some(i@),
                None => None,
            },
            next_frame: self.next_frame,
            blocks_emitted: self.blocks_emitted as nat,
            flushed: self.flushed,
        }
    }
}

impl Default for FrameworkDecoder {
    fn default() -> (r: Self)
        ensures
            r.wf(),
            r@ == fresh_stream(),
    {
        Self::new()
    }
}

impl FrameworkDecoder {
    /// The header was parsed from a prefix of the buffer, and no more
    /// blocks were handed out than the frames handed out can hold.
    pub open spec fn wf(&self) -> bool {
        &&& self.info is Some ==> self.info->Some_0.wf() && self.info->Some_0.data_len
            <= self.buf@.len()
        &&& self.blocks_emitted <= self.next_frame * 0xFFFF_FFFF
    }

    /// A decoder without input.
    pub fn new() -> (r: Self)
        ensures
            r.wf(),
            r@ == fresh_stream(),
    {
        let r = FrameworkDecoder {
            buf: Vec::new(),
            info: None,
            next_frame: 0,
            blocks_emitted: 0,
            flushed: false,
        };
        assert(r.buf@ =~= Seq::<u8>::empty());
        r
    }

    /// Takes more bytes of the file.
    pub fn send_packet(&mut self, data: &[u8])
        requires
            old(self).wf(),
        ensures
            final(self).wf(),
            final(self)@ == (StreamModel { buf: old(self)@.buf + data@, ..old(self)@ }),
    {
        push_slice(&mut self.buf, data);
    }

    /// Parses the header once enough bytes are there.
    fn ensure_info(&mut self) -> (r: core::result::Result<(), StreamError>)
        requires
            old(self).wf(),
        ensures
            final(self).wf(),
            match old(self)@.header() {
                Ok(m) => r is Ok && final(self).info is Some && final(self)@ == (StreamModel {
                    info: Some(m),
                    ..old(self)@
                }),
                Err(e) => r == Err::<(), StreamError>(e) && final(self)@ == old(self)@,
            },
    {
        if self.info.is_some() {
            return Ok(());
        }
        match FileInfo::parse(self.buf.as_slice()) {
            Ok(info) => {
                self.info = Some(info);
                Ok(())
            },
            Err(e) => {
                let waiting = match e {
                    Error::Truncated => true,
                    Error::InvalidMagic => true,
                    _ => false,
                };
                if waiting && !self.flushed {
                    Err(StreamError::NeedMore)
                } else {
                    Err(StreamError::Codec(e))
                }
            },
        }
    }

    /// Hands out the next frame.
    pub fn receive_frame(&mut self) -> (r: core::result::Result<DecodedFrame, StreamError>)
        requires
            old(self).wf(),
            addressable(old(self)@.buf.len()),
        ensures
            final(self).wf(),
            final(self)@ == old(self)@.receive().0,
            match old(self)@.receive().1 {
                Ok(f) => r is Ok && r->Ok_0@ == f,
                Err(e) => r == Err::<DecodedFrame, StreamError>(e),
            },
    {
        match self.ensure_info() {
            Err(e) => {
                return Err(e);
            },
            Ok(_) => {},
        }
        let info = match self.info.take() {
            None => {
                return Err(StreamError::NeedMore);
            },
            Some(info) => info,
        };
        let total: u32 = info.total_frames;
        let end: u64 = info.audio_data_end();
        let index: u32 = self.next_frame;
        if index >= total {
            self.info = Some(info);
            return Err(StreamError::Eof);
        }
        if (self.buf.len() as u64) < end {
            self.info = Some(info);
            return if self.flushed {
                Err(StreamError::Codec(Error::Truncated))
            } else {
                Err(StreamError::NeedMore)
            };
        }
        let dec = ApeDecoder { data: self.buf.as_slice(), info };
        let bytes = dec.decode_frame_bytes(index);
        let blocks = dec.info.frame_blocks(index);
        let ApeDecoder { data: _, info } = dec;
        self.info = Some(info);
        match bytes {
            Err(e) => Err(StreamError::Codec(e)),
            Ok(data) => match blocks {
                Err(e) => Err(StreamError::Codec(e)),
                Ok(samples) => {
                    let before: u64 = self.blocks_emitted;
                    let pts: Option<i64> = if before <= 0x7FFF_FFFF_FFFF_FFFF {
                        Some(before as i64)
                    } else {
                        None
                    };
                    proof {
                        assert((index + 1) * 0xFFFF_FFFF == index * 0xFFFF_FFFF + 0xFFFF_FFFF);
                    }
                    self.next_frame = index + 1;
                    self.blocks_emitted = before + samples as u64;
                    Ok(DecodedFrame { samples, pts, data })
                },
            },
        }
    }

    /// Marks the end of the input.
    pub fn flush(&mut self)
        requires
            old(self).wf(),
        ensures
            final(self).wf(),
            final(self)@ == (StreamModel { flushed: true, ..old(self)@ }),
    {
        self.flushed = true;
    }

    /// Forgets everything.
    pub fn reset(&mut self)
        ensures
            final(self).wf(),
            final(self)@ == fresh_stream(),
    {
        *self = Self::new();
    }
}

// ---------------------------------------------------------------------
// Encoder options
// ---------------------------------------------------------------------

/// Options of the encoder.
#[derive(Debug, Clone, PartialEq, Eq)]
pub struct ApeEncoderOptions {
    /// Compression level.
    pub compression_level: CompressionLevel,
    /// Blocks per frame.
    pub blocks_per_frame: u32,
}

impl Default for ApeEncoderOptions {
    /// The normal level and the default frame size.
    fn default() -> (r: Self)
        ensures
            r.compression_level == CompressionLevel::Normal,
            r.blocks_per_frame == DEFAULT_BLOCKS_PER_FRAME,
    {
        ApeEncoderOptions {
            compression_level: CompressionLevel::Normal,
            blocks_per_frame: DEFAULT_BLOCKS_PER_FRAME,
        }
    }
}

/// A character of Unicode white space.
pub open spec fn is_white_space(c: char) -> bool {
    let u = c as u32;
    9 <= u <= 13 || u == 0x20 || u == 0x85 || u == 0xA0 || u == 0x1680 || 0x2000 <= u <= 0x200A
        || u == 0x2028 || u == 0x2029 || u == 0x202F || u == 0x205F || u == 0x3000
}

/// `text` without the white space at both ends.
pub open spec fn stripped(text: Seq<char>) -> Seq<char>
    decreases text.len(),
{
    if text.len() > 0 && is_white_space(text[0]) {
        stripped(text.drop_first())
    } else if text.len() > 0 && is_white_space(text.last()) {
        stripped(text.drop_last())
    } else {
        text
    }
}

/// A decimal digit.
pub open spec fn is_digit(c: char) -> bool {
    48 <= c as u32 <= 57
}

/// The number that digits write.
pub open spec fn number_of(digits: Seq<char>) -> nat
    decreases digits.len(),
{
    if digits.len() == 0 {
        0
    } else {
        number_of(digits.drop_last()) * 10 + (digits.last() as u32 - 48) as nat
    }
}

/// `text` without a leading plus sign.
pub open spec fn unsigned(text: Seq<char>) -> Seq<char> {
    if text.len() > 0 && text[0] == '+' {
        text.drop_first()
    } else {
        text
    }
}

/// The 16-bit number that `text` writes: digits, with an optional plus
/// sign.
pub open spec fn decimal_u16(text: Seq<char>) -> Option<u16> {
    let digits = unsigned(text);
    if digits.len() == 0 || !(forall|i: int| 0 <= i < digits.len() ==> is_digit(#[trigger] digits[i]))
        || number_of(digits) > u16::MAX {
        None
    } else {
        Some(number_of(digits) as u16)
    }
}

/// `text` in ASCII with spaces for underscores; `None` when it is not
/// ASCII.
pub open spec fn spaced(text: Seq<char>) -> Option<Seq<u8>> {
    if forall|i: int| 0 <= i < text.len() ==> (#[trigger] text[i]) as u32 <= 127 {
        Some(
            Seq::new(
                text.len(),
                |i: int|
                    if text[i] == '_' {
                        32u8
                    } else {
                        text[i] as u8
                    },
            ),
        )
    } else {
        None
    }
}

/// The level that an option value names: by its number, or by its label
/// with spaces or underscores.
pub open spec fn level_of_option(raw: Seq<char>) -> Result<CompressionLevel> {
    match decimal_u16(stripped(raw)) {
        Some(code) => level_of_code(code),
        None => match spaced(raw) {
            Some(label) => level_of_label(label),
            None => Err(Error::UnknownCompressionLabel),
        },
    }
}

/// The characters of `raw`.
fn characters(raw: &str) -> (r: Vec<char>)
    ensures
        r@ == raw@,
{
    let n: usize = raw.unicode_len();
    let mut out: Vec<char> = Vec::new();
    let mut i: usize = 0;
    while i < n
        invariant
            i <= n,
            n == raw@.len(),
            out@ == raw@.take(i as int),
        decreases n - i,
    {
        out.push(raw.get_char(i));
        i = i + 1;
        assert(out@ =~= raw@.take(i as int));
    }
    assert(raw@.take(i as int) =~= raw@);
    out
}

fn white_space(c: char) -> (r: bool)
    ensures
        r == is_white_space(c),
{
    let u: u32 = c as u32;
    (9 <= u && u <= 13) || u == 0x20 || u == 0x85 || u == 0xA0 || u == 0x1680 || (0x2000 <= u && u
        <= 0x200A) || u == 0x2028 || u == 0x2029 || u == 0x202F || u == 0x205F || u == 0x3000
}

/// The bounds of `text` without the white space at both ends.
fn strip_bounds(text: &Vec<char>) -> (r: (usize, usize))
    ensures
        r.0 <= r.1 <= text@.len(),
        text@.subrange(r.0 as int, r.1 as int) == stripped(text@),
{
    let mut lo: usize = 0;
    let mut hi: usize = text.len();
    assert(text@.subrange(0, hi as int) =~= text@);
    loop
        invariant
            lo <= hi <= text@.len(),
            stripped(text@.subrange(lo as int, hi as int)) == stripped(text@),
        decreases hi - lo,
    {
        let ghost rest = text@.subrange(lo as int, hi as int);
        if lo < hi && white_space(text[lo]) {
            assert(rest[0] == text@[lo as int]);
            assert(rest.drop_first() =~= text@.subrange(lo as int + 1, hi as int));
            lo = lo + 1;
        } else if lo < hi && white_space(text[hi - 1]) {
            assert(rest[0] == text@[lo as int]);
            assert(rest.last() == text@[hi - 1]);
            assert(rest.drop_last() =~= text@.subrange(lo as int, hi - 1));
            hi = hi - 1;
        } else {
            proof {
                if lo < hi {
                    assert(rest[0] == text@[lo as int]);
                    assert(rest.last() == text@[hi - 1]);
                }
            }
            return (lo, hi);
        }
    }
}

/// The 16-bit number that `text[lo..hi]` writes.
fn parse_u16(text: &Vec<char>, lo: usize, hi: usize) -> (r: Option<u16>)
    requires
        lo <= hi <= text@.len(),
    ensures
        r == decimal_u16(text@.subrange(lo as int, hi as int)),
{
    let ghost part = text@.subrange(lo as int, hi as int);
    let from: usize = if lo < hi && text[lo] == '+' {
        lo + 1
    } else {
        lo
    };
    let ghost digits = unsigned(part);
    proof {
        if lo < hi {
            assert(part[0] == text@[lo as int]);
        }
        assert(digits =~= text@.subrange(from as int, hi as int));
    }
    if from >= hi {
        return None;
    }
    let mut value: u32 = 0;
    let mut big: bool = false;
    let mut i: usize = from;
    assert(digits.take(0) =~= Seq::<char>::empty());
    while i < hi
        invariant
            from <= i <= hi <= text@.len(),
            digits == text@.subrange(from as int, hi as int),
            digits == unsigned(part),
            part == text@.subrange(lo as int, hi as int),
            digits.len() > 0,
            forall|k: int| 0 <= k < i - from ==> is_digit(#[trigger] digits[k]),
            !big ==> value == number_of(digits.take(i - from)) && value <= 0xFFFF,
            big ==> number_of(digits.take(i - from)) > 0xFFFF,
        decreases hi - i,
    {
        let c: u32 = text[i] as u32;
        let ghost j = i - from;
        assert(digits[j] == text@[i as int]);
        if c < 48 || c > 57 {
            assert(!is_digit(digits[j]));
            return None;
        }
        assert(digits.take(j + 1).drop_last() =~= digits.take(j));
        if !big {
            let next: u32 = value * 10 + (c - 48);
            if next > 0xFFFF {
                big = true;
            } else {
                value = next;
            }
        }
        i = i + 1;
    }
    assert(digits.take(hi - from) =~= digits);
    if big {
        None
    } else {
        Some(value as u16)
    }
}

/// The level that an option value names: by its number, or by its label
/// with spaces or underscores.
pub fn parse_level(raw: &str) -> (r: Result<CompressionLevel>)
    ensures
        r == level_of_option(raw@),
{
    let text = characters(raw);
    let (lo, hi) = strip_bounds(&text);
    match parse_u16(&text, lo, hi) {
        Some(code) => CompressionLevel::from_u16(code),
        None => {
            let mut label: Vec<u8> = Vec::new();
            let mut i: usize = 0;
            while i < text.len()
                invariant
                    i <= text@.len(),
                    text@ == raw@,
                    decimal_u16(stripped(raw@)) is None,
                    label@.len() == i,
                    forall|k: int| 0 <= k < i ==> (#[trigger] raw@[k]) as u32 <= 127,
                    forall|k: int|
                        0 <= k < i ==> #[trigger] label@[k] == if raw@[k] == '_' {
                            32u8
                        } else {
                            raw@[k] as u8
                        },
                decreases text@.len() - i,
            {
                let c: char = text[i];
                assert(c == raw@[i as int]);
                if c as u32 > 127 {
                    return Err(Error::UnknownCompressionLabel);
                }
                label.push(
                    if c == '_' {
                        32
                    } else {
                        c as u8
                    },
                );
                i = i + 1;
            }
            assert(label@ =~= spaced(raw@)->Some_0);
            CompressionLevel::from_label_bytes(label.as_slice())
        },
    }
}

// ---------------------------------------------------------------------
// Encoder
// ---------------------------------------------------------------------

/// A finished file, ready to be handed out.
#[derive(Debug, Clone, PartialEq, Eq)]
pub struct EncodedPacket {
    /// Blocks per second.
    pub sample_rate: u32,
    /// Number of blocks, if it is a signed 64-bit number.
    pub duration: Option<i64>,
    /// The file.
    pub data: Vec<u8>,
}

/// What is wrong with the shape of a stream, if anything is.
pub open spec fn shape_error(
    sample_rate: Option<u32>,
    channels: Option<u16>,
    format: Option<SampleFormat>,
) -> Option<StreamError> {
    if sample_rate is None {
        Some(StreamError::Invalid("ape encoder needs sample_rate"))
    } else if channels is None {
        Some(StreamError::Invalid("ape encoder needs channels"))
    } else if format == Some(SampleFormat::Other) {
        Some(StreamError::UnsupportedFormat)
    } else {
        None
    }
}

/// The bit depth of a stream; 16 unless the format says otherwise.
pub open spec fn depth_of(format: Option<SampleFormat>) -> u16 {
    match format {
        None => 16,
        Some(f) => bits_of(f)->Some_0,
    }
}

/// The bit depth of a stream. The sample rate and the number of channels
/// have to be known, and the format, where there is one, has to be one
/// that can be stored.
pub fn stream_bits(
    sample_rate: Option<u32>,
    channels: Option<u16>,
    format: Option<SampleFormat>,
) -> (r: core::result::Result<u16, StreamError>)
    ensures
        match shape_error(sample_rate, channels, format) {
            Some(e) => r == Err::<u16, StreamError>(e),
            None => r == Ok::<u16, StreamError>(depth_of(format)),
        },
{
    if sample_rate.is_none() {
        return Err(StreamError::Invalid("ape encoder needs sample_rate"));
    }
    if channels.is_none() {
        return Err(StreamError::Invalid("ape encoder needs channels"));
    }
    match format {
        None => Ok(16),
        Some(f) => match bits_for_sample_format(f) {
            None => Err(StreamError::UnsupportedFormat),
            Some(bits) => Ok(bits),
        },
    }
}

/// The configuration for a stream.
pub open spec fn is_stream_config(
    cfg: EncoderConfig,
    sample_rate: u32,
    channels: u16,
    format: Option<SampleFormat>,
    options: ApeEncoderOptions,
) -> bool {
    &&& cfg.compression_level == options.compression_level
    &&& cfg.channels == channels
    &&& cfg.sample_rate == sample_rate
    &&& cfg.bits_per_sample == depth_of(format)
    &&& cfg.blocks_per_frame == options.blocks_per_frame
    &&& cfg.wav_header is None
    &&& cfg.terminating_data@.len() == 0
    &&& cfg.trailing_tag@.len() == 0
}

/// Encoder that takes samples in pieces.
pub struct FrameworkEncoder {
    pub enc: Option<ApeEncoder>,
    pub samples_in: u64,
    pub sample_rate: u32,
    pub finished: Option<Vec<u8>>,
    pub flushed: bool,
}

impl FrameworkEncoder {
    /// The encoder is in order as long as it takes samples.
    pub open spec fn wf(&self) -> bool {
        self.enc is Some ==> self.enc->Some_0.wf()
    }

    /// An encoder for a stream. The sample rate and the number of
    /// channels are needed; samples have 16 bits unless the format says
    /// otherwise.
    pub fn from_params(
        sample_rate: Option<u32>,
        channels: Option<u16>,
        format: Option<SampleFormat>,
        options: ApeEncoderOptions,
    ) -> (r: core::result::Result<Self, StreamError>)
        ensures
            match shape_error(sample_rate, channels, format) {
                Some(e) => r == Err::<FrameworkEncoder, StreamError>(e),
                None => exists|cfg: EncoderConfig|
                    {
                        &&& #[trigger] is_stream_config(
                            cfg,
                            sample_rate->Some_0,
                            channels->Some_0,
                            format,
                            options,
                        )
                        &&& match config_error(cfg) {
                            Some(e) => r == Err::<FrameworkEncoder, StreamError>(
                                StreamError::Codec(e),
                            ),
                            None => {
                                &&& r is Ok
                                &&& r->Ok_0.wf()
                                &&& r->Ok_0.enc is Some
                                &&& r->Ok_0.enc->Some_0.cfg == cfg
                                &&& r->Ok_0.enc->Some_0.pushed@ == no_samples(
                                    cfg.channels as nat,
                                )
                                &&& r->Ok_0.samples_in == 0
                                &&& r->Ok_0.sample_rate == sample_rate->Some_0
                                &&& r->Ok_0.finished is None
                                &&& !r->Ok_0.flushed
                            },
                        }
                    },
            },
    {
        let bits = match stream_bits(sample_rate, channels, format) {
            Err(e) => {
                return Err(e);
            },
            Ok(bits) => bits,
        };
        let rate = sample_rate.unwrap();
        let count = channels.unwrap();
        let mut cfg = EncoderConfig::new(options.compression_level, count, rate, bits);
        cfg.blocks_per_frame = options.blocks_per_frame;
        assert(is_stream_config(cfg, rate, count, format, options));
        match ApeEncoder::new(cfg) {
            Err(e) => Err(StreamError::Codec(e)),
            Ok(enc) => Ok(
                FrameworkEncoder {
                    enc: Some(enc),
                    samples_in: 0,
                    sample_rate: rate,
                    finished: None,
                    flushed: false,
                },
            ),
        }
    }

    /// Takes a frame of `samples` blocks: one plane of interleaved
    /// samples.
    pub fn send_frame(&mut self, planes: &[Vec<u8>], samples: u32) -> (r: core::result::Result<
        (),
        StreamError,
    >)
        requires
            old(self).wf(),
            old(self).samples_in <= u64::MAX - samples,
            old(self).enc is Some && planes@.len() == 1 ==> old(self).enc->Some_0.total_blocks
                + planes@[0]@.len() <= u64::MAX,
        ensures
            final(self).wf(),
            final(self).sample_rate == old(self).sample_rate,
            final(self).finished == old(self).finished,
            final(self).flushed == old(self).flushed,
            match old(self).enc {
                None => {
                    &&& r == Err::<(), StreamError>(
                        StreamError::Invalid("ape encoder already flushed"),
                    )
                    &&& final(self).samples_in == old(self).samples_in
                    &&& final(self).enc is None
                },
                Some(enc) => if planes@.len() != 1 {
                    &&& r == Err::<(), StreamError>(
                        StreamError::Invalid("ape expects one interleaved sample plane"),
                    )
                    &&& final(self).samples_in == old(self).samples_in
                    &&& final(self).enc == old(self).enc
                } else {
                    match deinterleaved(
                        planes@[0]@,
                        enc.cfg.bits_per_sample,
                        enc.cfg.channels,
                    ) {
                        Err(e) => {
                            &&& r == Err::<(), StreamError>(StreamError::Codec(e))
                            &&& final(self).samples_in == old(self).samples_in
                            &&& final(self).enc == old(self).enc
                        },
                        Ok(chs) => {
                            &&& r == Ok::<(), StreamError>(())
                            &&& final(self).samples_in == old(self).samples_in + samples
                            &&& final(self).enc is Some
                            &&& final(self).enc->Some_0.cfg == enc.cfg
                            &&& final(self).enc->Some_0.pushed@ == appended(enc.pushed@, chs)
                        },
                    }
                },
            },
    {
        match self.enc.take() {
            None => Err(StreamError::Invalid("ape encoder already flushed")),
            Some(enc) => {
                if planes.len() != 1 {
                    self.enc = Some(enc);
                    return Err(StreamError::Invalid("ape expects one interleaved sample plane"));
                }
                let mut enc = enc;
                let res = enc.push_interleaved_bytes(planes[0].as_slice());
                self.enc = Some(enc);
                match res {
                    Err(e) => Err(StreamError::Codec(e)),
                    Ok(_) => {
                        self.samples_in = self.samples_in + samples as u64;
                        Ok(())
                    },
                }
            },
        }
    }

    /// Hands out the file, once; before the flush more input is needed.
    pub fn receive_packet(&mut self) -> (r: core::result::Result<EncodedPacket, StreamError>)
        requires
            old(self).wf(),
        ensures
            final(self).wf(),
            final(self).enc == old(self).enc,
            final(self).samples_in == old(self).samples_in,
            final(self).sample_rate == old(self).sample_rate,
            final(self).flushed == old(self).flushed,
            final(self).finished is None,
            match old(self).finished {
                Some(data) => {
                    &&& r is Ok
                    &&& r->Ok_0.data == data
                    &&& r->Ok_0.sample_rate == old(self).sample_rate
                    &&& r->Ok_0.duration == if old(self).samples_in <= i64::MAX {
                        Some(old(self).samples_in as i64)
                    } else {
                        None
                    }
                },
                None => r == Err::<EncodedPacket, StreamError>(
                    if old(self).flushed {
                        StreamError::Eof
                    } else {
                        StreamError::NeedMore
                    },
                ),
            },
    {
        match self.finished.take() {
            Some(data) => {
                let duration: Option<i64> = if self.samples_in <= 0x7FFF_FFFF_FFFF_FFFF {
                    Some(self.samples_in as i64)
                } else {
                    None
                };
                Ok(EncodedPacket { sample_rate: self.sample_rate, duration, data })
            },
            None => if self.flushed {
                Err(StreamError::Eof)
            } else {
                Err(StreamError::NeedMore)
            },
        }
    }

    /// Ends the input and makes the file. If that fails, the stream is
    /// not marked as flushed, and the samples are gone.
    pub fn flush(&mut self) -> (r: core::result::Result<(), StreamError>)
        requires
            old(self).wf(),
            old(self).enc is Some ==> byte_rate_fits(old(self).enc->Some_0.cfg),
        ensures
            final(self).wf(),
            final(self).enc is None,
            final(self).samples_in == old(self).samples_in,
            final(self).sample_rate == old(self).sample_rate,
            match old(self).enc {
                None => {
                    &&& r == Ok::<(), StreamError>(())
                    &&& final(self).flushed
                    &&& final(self).finished == old(self).finished
                },
                Some(enc) => match encoded_file(enc.cfg, enc.pushed@) {
                    Err(e) => {
                        &&& r == Err::<(), StreamError>(StreamError::Codec(e))
                        &&& final(self).flushed == old(self).flushed
                        &&& final(self).finished == old(self).finished
                    },
                    Ok(file) => {
                        &&& r == Ok::<(), StreamError>(())
                        &&& final(self).flushed
                        &&& final(self).finished is Some
                        &&& final(self).finished->Some_0@ == file
                    },
                },
            },
    {
        match self.enc.take() {
            None => {},
            Some(enc) => match enc.finish() {
                Err(e) => {
                    return Err(StreamError::Codec(e));
                },
                Ok(file) => {
                    self.finished = Some(file);
                },
            },
        }
        self.flushed = true;
        Ok(())
    }
}

} // verus!
