//! Headers built from their fields are parsed back to these fields.

use vstd::prelude::*;

use crate::bytes::{
    le16_at, le16_bytes, le32_at, le32_bytes, lemma_le16_back, lemma_le16_len, lemma_le32_back,
    lemma_le32_len,
};
use crate::error::Error;
use crate::file_header::{
    first_magic, has_magic, lemma_first_magic_unique, magic_at, old_bits_end, old_count_end,
    old_elements, old_peak_end, old_seek_end, old_wav_end, parsed, parsed_at, table_at,
    DescriptorModel, FileModel, FormatFlags,
};
use crate::file_laws::{lemma_middle, lemma_table_back, storable};
use crate::header::{law_level_code_round_trip, CompressionLevel, MAGIC};
use crate::md5::md5_of;
use crate::writer::{lemma_md5_len, lemma_table_bytes_len, table_bytes, LayoutModel};

verus! {

broadcast use {lemma_le16_len, lemma_le32_len};

/// The number of a level.
pub open spec fn number_of_level(level: CompressionLevel) -> nat {
    match level {
        CompressionLevel::Fast => 1000,
        CompressionLevel::Normal => 2000,
        CompressionLevel::High => 3000,
        CompressionLevel::ExtraHigh => 4000,
        CompressionLevel::Insane => 5000,
    }
}

/// Nothing, unless `present`.
pub open spec fn optional(present: bool, bytes: Seq<u8>) -> Seq<u8> {
    if present {
        bytes
    } else {
        Seq::empty()
    }
}

// ---------------------------------------------------------------------
// Flat headers
// ---------------------------------------------------------------------

/// What a file with a flat header is built from.
pub ghost struct FlatFile {
    pub version: u16,
    pub level: CompressionLevel,
    pub flags: u16,
    pub channels: u16,
    pub sample_rate: u32,
    pub terminating: u32,
    pub total_frames: u32,
    pub final_frame_blocks: u32,
    /// Stored length of the WAV header.
    pub wav_bytes: u32,
    pub peak: u32,
    pub wav: Seq<u8>,
    pub seek: Seq<u32>,
    pub bits: Seq<u8>,
    /// The frames and what follows them.
    pub rest: Seq<u8>,
}

impl FlatFile {
    /// The flat header: 32 bytes.
    pub open spec fn header(self) -> Seq<u8> {
        seq![77u8, 65, 67, 32] + le16_bytes(self.version as nat) + le16_bytes(
            number_of_level(self.level),
        ) + le16_bytes(self.flags as nat) + le16_bytes(self.channels as nat) + le32_bytes(
            self.sample_rate as nat,
        ) + le32_bytes(self.wav_bytes as nat) + le32_bytes(self.terminating as nat) + le32_bytes(
            self.total_frames as nat,
        ) + le32_bytes(self.final_frame_blocks as nat)
    }

    /// The peak level and the number of seek entries, where the flags have
    /// them.
    pub open spec fn counts(self) -> Seq<u8> {
        optional(self.flags & 4 != 0, le32_bytes(self.peak as nat)) + optional(
            self.flags & 16 != 0,
            le32_bytes(self.seek.len()),
        )
    }

    /// The WAV header, unless a flag says that there is none.
    pub open spec fn stored_wav(self) -> Seq<u8> {
        optional(self.flags & 32 == 0, self.wav)
    }

    /// The bit offsets, up to version 3800.
    pub open spec fn stored_bits(self) -> Seq<u8> {
        optional(self.version <= 3800, self.bits)
    }

    /// Everything before the frames.
    pub open spec fn lead(self) -> Seq<u8> {
        self.header() + self.counts() + self.stored_wav() + table_bytes(self.seek)
            + self.stored_bits()
    }

    /// The file.
    pub open spec fn file(self) -> Seq<u8> {
        self.lead() + self.rest
    }

    /// The lengths agree.
    pub open spec fn wf(self) -> bool {
        &&& self.version < 3980
        &&& self.total_frames >= 1
        &&& self.seek.len() <= u32::MAX
        &&& self.flags & 16 == 0 ==> self.seek.len() == self.total_frames
        &&& self.flags & 32 == 0 ==> self.wav.len() == self.wav_bytes
        &&& self.version <= 3800 ==> self.bits.len() == self.seek.len()
    }
}

proof fn lemma_flat_fields(f: FlatFile)
    ensures
        ({
            let s = f.header();
            &&& s.len() == 32
            &&& s.subrange(0, 4) == MAGIC@
            &&& s.subrange(4, 6) == le16_bytes(f.version as nat)
            &&& s.subrange(6, 8) == le16_bytes(number_of_level(f.level))
            &&& s.subrange(8, 10) == le16_bytes(f.flags as nat)
            &&& s.subrange(10, 12) == le16_bytes(f.channels as nat)
            &&& s.subrange(12, 16) == le32_bytes(f.sample_rate as nat)
            &&& s.subrange(16, 20) == le32_bytes(f.wav_bytes as nat)
            &&& s.subrange(20, 24) == le32_bytes(f.terminating as nat)
            &&& s.subrange(24, 28) == le32_bytes(f.total_frames as nat)
            &&& s.subrange(28, 32) == le32_bytes(f.final_frame_blocks as nat)
        }),
{
    let s = f.header();
    assert(s.subrange(0, 4) =~= MAGIC@);
    assert(s.subrange(4, 6) =~= le16_bytes(f.version as nat));
    assert(s.subrange(6, 8) =~= le16_bytes(number_of_level(f.level)));
    assert(s.subrange(8, 10) =~= le16_bytes(f.flags as nat));
    assert(s.subrange(10, 12) =~= le16_bytes(f.channels as nat));
    assert(s.subrange(12, 16) =~= le32_bytes(f.sample_rate as nat));
    assert(s.subrange(16, 20) =~= le32_bytes(f.wav_bytes as nat));
    assert(s.subrange(20, 24) =~= le32_bytes(f.terminating as nat));
    assert(s.subrange(24, 28) =~= le32_bytes(f.total_frames as nat));
    assert(s.subrange(28, 32) =~= le32_bytes(f.final_frame_blocks as nat));
}

/// The fixed fields of a flat header, read at their places.
proof fn lemma_flat_numbers(f: FlatFile, tail: Seq<u8>)
    ensures
        ({
            let data = f.header() + tail;
            &&& data.len() >= 32
            &&& magic_at(data, 0)
            &&& le16_at(data, 4) == f.version
            &&& le16_at(data, 6) == number_of_level(f.level)
            &&& le16_at(data, 8) == f.flags
            &&& le16_at(data, 10) == f.channels
            &&& le32_at(data, 12) == f.sample_rate
            &&& le32_at(data, 16) == f.wav_bytes
            &&& le32_at(data, 20) == f.terminating
            &&& le32_at(data, 24) == f.total_frames
            &&& le32_at(data, 28) == f.final_frame_blocks
        }),
{
    let h = f.header();
    let e = Seq::<u8>::empty();
    let data = h + tail;
    assert(data =~= e + h + tail);
    lemma_flat_fields(f);
    lemma_middle(e, h, tail, 0, 4);
    lemma_middle(e, h, tail, 4, 6);
    lemma_middle(e, h, tail, 6, 8);
    lemma_middle(e, h, tail, 8, 10);
    lemma_middle(e, h, tail, 10, 12);
    lemma_middle(e, h, tail, 12, 16);
    lemma_middle(e, h, tail, 16, 20);
    lemma_middle(e, h, tail, 20, 24);
    lemma_middle(e, h, tail, 24, 28);
    lemma_middle(e, h, tail, 28, 32);
    lemma_le16_back(f.version as nat, data, 4);
    lemma_le16_back(number_of_level(f.level), data, 6);
    lemma_le16_back(f.flags as nat, data, 8);
    lemma_le16_back(f.channels as nat, data, 10);
    lemma_le32_back(f.sample_rate as nat, data, 12);
    lemma_le32_back(f.wav_bytes as nat, data, 16);
    lemma_le32_back(f.terminating as nat, data, 20);
    lemma_le32_back(f.total_frames as nat, data, 24);
    lemma_le32_back(f.final_frame_blocks as nat, data, 28);
}

/// Where the parts behind a flat header stand, and what they hold.
#[verifier::rlimit(40)]
proof fn lemma_flat_parts(f: FlatFile)
    requires
        f.wf(),
    ensures
        ({
            let data = f.file();
            let a = 32 + f.counts().len();
            let b = a + f.stored_wav().len();
            let c = b + 4 * f.seek.len();
            let d = c + f.stored_bits().len();
            &&& old_count_end(data, 0) == a
            &&& old_elements(data, 0) == f.seek.len()
            &&& old_wav_end(data, 0) == b
            &&& old_seek_end(data, 0) == c
            &&& old_bits_end(data, 0) == d
            &&& d == f.lead().len()
            &&& f.flags & 4 != 0 ==> le32_at(data, 32) == f.peak
            &&& data.subrange(a as int, b as int) == f.stored_wav()
            &&& table_at(data, b as int, f.seek.len()) == f.seek
            &&& data.subrange(c as int, d as int) == f.stored_bits()
        }),
{
    let h = f.header();
    let k = f.counts();
    let w = f.stored_wav();
    let s = table_bytes(f.seek);
    let q = f.stored_bits();
    let data = f.file();
    let e = Seq::<u8>::empty();
    lemma_flat_fields(f);
    lemma_table_bytes_len(f.seek);
    assert(data =~= h + (k + w + s + q + f.rest));
    lemma_flat_numbers(f, k + w + s + q + f.rest);
    assert(data =~= h + k + (w + s + q + f.rest));
    if f.flags & 4 != 0 {
        assert(k.subrange(0, 4) =~= le32_bytes(f.peak as nat));
        lemma_middle(h, k, w + s + q + f.rest, 0, 4);
        lemma_le32_back(f.peak as nat, data, 32);
    }
    if f.flags & 16 != 0 {
        let at = old_peak_end(data, 0) - 32;
        assert(k.subrange(at, at + 4) =~= le32_bytes(f.seek.len()));
        lemma_middle(h, k, w + s + q + f.rest, at, at + 4);
        lemma_le32_back(f.seek.len(), data, 32 + at);
    }
    assert(data =~= (h + k) + w + (s + q + f.rest));
    lemma_middle(h + k, w, s + q + f.rest, 0, w.len() as int);
    assert(w.subrange(0, w.len() as int) =~= w);
    assert(data =~= (h + k + w) + s + (q + f.rest));
    lemma_table_back(f.seek, data, h + k + w, q + f.rest);
    assert(data =~= (h + k + w + s) + q + f.rest);
    lemma_middle(h + k + w + s, q, f.rest, 0, q.len() as int);
    assert(q.subrange(0, q.len() as int) =~= q);
}

/// What parsing a file with a flat header gives.
pub open spec fn flat_info(f: FlatFile) -> FileModel {
    FileModel {
        junk_bytes: 0,
        version: f.version,
        compression_level: f.level,
        format_flags: FormatFlags(f.flags),
        channels: f.channels,
        sample_rate: f.sample_rate,
        bits_per_sample: if f.flags & 1 != 0 {
            8
        } else if f.flags & 8 != 0 {
            24
        } else {
            16
        },
        blocks_per_frame: if f.version >= 3950 {
            294912
        } else if f.version >= 3900 || f.version >= 3800 && f.level
            == CompressionLevel::ExtraHigh {
            73728
        } else {
            9216
        },
        final_frame_blocks: f.final_frame_blocks,
        total_frames: f.total_frames,
        peak_level: if f.flags & 4 != 0 {
            Some(f.peak)
        } else {
            None
        },
        seek_table: f.seek,
        seek_bit_table: if f.version <= 3800 {
            Some(f.bits)
        } else {
            None
        },
        wav_header: f.stored_wav(),
        audio_data_offset: f.lead().len(),
        audio_data_len: if f.rest.len() >= f.terminating {
            (f.rest.len() - f.terminating) as nat
        } else {
            0
        },
        terminating_data_bytes: f.terminating,
        file_md5: None,
        descriptor: None,
        data_len: f.file().len(),
    }
}

/// A buffer that starts with the magic is parsed from its start.
proof fn lemma_parsed_from_start(data: Seq<u8>)
    requires
        magic_at(data, 0),
    ensures
        parsed(data) == parsed_at(data, 0),
{
    assert(first_magic(data, 0));
    assert(has_magic(data));
    lemma_first_magic_unique(data, 0, choose|p: int| first_magic(data, p));
}

/// The fields of a flat header and the parts behind it make up what is
/// parsed.
proof fn lemma_flat_parsed(f: FlatFile, data: Seq<u8>, a: int, b: int, c: int, d: int)
    requires
        f.version < 3980,
        f.total_frames >= 1,
        32 <= a <= b <= c <= d <= data.len(),
        magic_at(data, 0),
        le16_at(data, 4) == f.version,
        le16_at(data, 6) == number_of_level(f.level),
        le16_at(data, 8) == f.flags,
        le16_at(data, 10) == f.channels,
        le32_at(data, 12) == f.sample_rate,
        le32_at(data, 20) == f.terminating,
        le32_at(data, 24) == f.total_frames,
        le32_at(data, 28) == f.final_frame_blocks,
        old_count_end(data, 0) == a,
        old_elements(data, 0) == f.seek.len(),
        old_wav_end(data, 0) == b,
        old_seek_end(data, 0) == c,
        old_bits_end(data, 0) == d,
        f.flags & 4 != 0 ==> le32_at(data, 32) == f.peak,
        data.subrange(a, b) == f.stored_wav(),
        table_at(data, b, f.seek.len()) == f.seek,
        f.version <= 3800 ==> data.subrange(c, d) == f.bits,
        f.lead().len() == d,
        f.file().len() == data.len(),
        f.rest.len() == data.len() - d,
    ensures
        parsed_at(data, 0) == Ok::<FileModel, Error>(flat_info(f)),
{
    law_level_code_round_trip(f.level, 0);
}

/// A file with a flat header gives back every field that it was built
/// from: version, level, flags, channels, sample rate, length of the WAV
/// header, length of what follows the samples, number of frames and blocks
/// of the last one, in this order; then the optional peak level and number
/// of seek entries, the WAV header, the seek table and the bit offsets.
pub proof fn law_flat_header_round_trip(f: FlatFile)
    requires
        f.wf(),
    ensures
        parsed(f.file()) == Ok::<FileModel, Error>(flat_info(f)),
{
    let data = f.file();
    let a = 32 + f.counts().len();
    let b = a + f.stored_wav().len();
    let c = b + 4 * f.seek.len();
    let d = c + f.stored_bits().len();
    lemma_flat_lead_numbers(f);
    lemma_flat_parts(f);
    lemma_parsed_from_start(data);
    lemma_flat_parsed(f, data, a as int, b as int, c as int, d as int);
}

/// The fixed fields of a whole file.
proof fn lemma_flat_lead_numbers(f: FlatFile)
    ensures
        ({
            let data = f.file();
            &&& data.len() == f.lead().len() + f.rest.len()
            &&& magic_at(data, 0)
            &&& le16_at(data, 4) == f.version
            &&& le16_at(data, 6) == number_of_level(f.level)
            &&& le16_at(data, 8) == f.flags
            &&& le16_at(data, 10) == f.channels
            &&& le32_at(data, 12) == f.sample_rate
            &&& le32_at(data, 16) == f.wav_bytes
            &&& le32_at(data, 20) == f.terminating
            &&& le32_at(data, 24) == f.total_frames
            &&& le32_at(data, 28) == f.final_frame_blocks
        }),
{
    let k = f.counts() + f.stored_wav() + table_bytes(f.seek) + f.stored_bits() + f.rest;
    assert(f.file() =~= f.header() + k);
    lemma_flat_numbers(f, k);
}

// ---------------------------------------------------------------------
// Headers with a descriptor
// ---------------------------------------------------------------------

/// What a file with a descriptor is built from.
pub ghost struct DescribedFile {
    pub version: u16,
    pub padding: Seq<u8>,
    pub frame_data_len: nat,
    pub terminating: u32,
    pub md5: Seq<u8>,
    /// What a longer descriptor holds.
    pub more_descriptor: Seq<u8>,
    pub level: CompressionLevel,
    pub flags: u16,
    pub blocks_per_frame: u32,
    pub final_frame_blocks: u32,
    pub total_frames: u32,
    pub bits_per_sample: u16,
    pub channels: u16,
    pub sample_rate: u32,
    /// What a longer header block holds.
    pub more_header: Seq<u8>,
    pub seek: Seq<u32>,
    /// Up to three bytes behind the seek table.
    pub seek_rest: Seq<u8>,
    pub wav: Seq<u8>,
    /// The frames and what follows them.
    pub rest: Seq<u8>,
}

impl DescribedFile {
    /// The first 36 bytes of the descriptor.
    pub open spec fn descriptor_head(self) -> Seq<u8> {
        seq![77u8, 65, 67, 32] + le16_bytes(self.version as nat) + self.padding + le32_bytes(
            52 + self.more_descriptor.len(),
        ) + le32_bytes(24 + self.more_header.len()) + le32_bytes(
            4 * self.seek.len() + self.seek_rest.len(),
        ) + le32_bytes(self.wav.len()) + le32_bytes(self.frame_data_len % 0x1_0000_0000)
            + le32_bytes(self.frame_data_len / 0x1_0000_0000) + le32_bytes(
            self.terminating as nat,
        )
    }

    /// The first 24 bytes of the header block.
    pub open spec fn header_head(self) -> Seq<u8> {
        le16_bytes(number_of_level(self.level)) + le16_bytes(self.flags as nat) + le32_bytes(
            self.blocks_per_frame as nat,
        ) + le32_bytes(self.final_frame_blocks as nat) + le32_bytes(self.total_frames as nat)
            + le16_bytes(self.bits_per_sample as nat) + le16_bytes(self.channels as nat)
            + le32_bytes(self.sample_rate as nat)
    }

    /// The descriptor.
    pub open spec fn descriptor(self) -> Seq<u8> {
        self.descriptor_head() + self.md5 + self.more_descriptor
    }

    /// The header block.
    pub open spec fn header(self) -> Seq<u8> {
        self.header_head() + self.more_header
    }

    /// Everything before the frames.
    pub open spec fn lead(self) -> Seq<u8> {
        self.descriptor() + self.header() + table_bytes(self.seek) + self.seek_rest + self.wav
    }

    /// The file.
    pub open spec fn file(self) -> Seq<u8> {
        self.lead() + self.rest
    }

    /// The lengths fit their fields.
    pub open spec fn wf(self) -> bool {
        &&& self.version >= 3980
        &&& self.padding.len() == 2
        &&& self.md5.len() == 16
        &&& self.total_frames >= 1
        &&& self.seek_rest.len() < 4
        &&& 52 + self.more_descriptor.len() <= u32::MAX
        &&& 24 + self.more_header.len() <= u32::MAX
        &&& 4 * self.seek.len() + self.seek_rest.len() <= u32::MAX
        &&& self.wav.len() <= u32::MAX
        &&& self.frame_data_len <= u64::MAX
    }
}

proof fn lemma_described_numbers(f: DescribedFile, tail: Seq<u8>)
    requires
        f.wf(),
    ensures
        ({
            let data = f.descriptor_head() + tail;
            &&& f.descriptor_head().len() == 36
            &&& magic_at(data, 0)
            &&& le16_at(data, 4) == f.version
            &&& le32_at(data, 8) == 52 + f.more_descriptor.len()
            &&& le32_at(data, 12) == 24 + f.more_header.len()
            &&& le32_at(data, 16) == 4 * f.seek.len() + f.seek_rest.len()
            &&& le32_at(data, 20) == f.wav.len()
            &&& le32_at(data, 24) + 0x1_0000_0000 * le32_at(data, 28) == f.frame_data_len
            &&& le32_at(data, 32) == f.terminating
        }),
{
    let s = f.descriptor_head();
    let data = s + tail;
    let lo = f.frame_data_len % 0x1_0000_0000;
    let hi = f.frame_data_len / 0x1_0000_0000;
    assert(data.subrange(0, 4) =~= MAGIC@);
    assert(data.subrange(4, 6) =~= le16_bytes(f.version as nat));
    assert(data.subrange(8, 12) =~= le32_bytes(52 + f.more_descriptor.len()));
    assert(data.subrange(12, 16) =~= le32_bytes(24 + f.more_header.len()));
    assert(data.subrange(16, 20) =~= le32_bytes(4 * f.seek.len() + f.seek_rest.len()));
    assert(data.subrange(20, 24) =~= le32_bytes(f.wav.len()));
    assert(data.subrange(24, 28) =~= le32_bytes(lo));
    assert(data.subrange(28, 32) =~= le32_bytes(hi));
    assert(data.subrange(32, 36) =~= le32_bytes(f.terminating as nat));
    lemma_le16_back(f.version as nat, data, 4);
    lemma_le32_back(52 + f.more_descriptor.len(), data, 8);
    lemma_le32_back(24 + f.more_header.len(), data, 12);
    lemma_le32_back(4 * f.seek.len() + f.seek_rest.len(), data, 16);
    lemma_le32_back(f.wav.len(), data, 20);
    lemma_le32_back(lo, data, 24);
    lemma_le32_back(hi, data, 28);
    lemma_le32_back(f.terminating as nat, data, 32);
}

proof fn lemma_described_header(f: DescribedFile, lead: Seq<u8>, tail: Seq<u8>)
    ensures
        ({
            let data = lead + f.header_head() + tail;
            let h = lead.len() as int;
            &&& f.header_head().len() == 24
            &&& le16_at(data, h) == number_of_level(f.level)
            &&& le16_at(data, h + 2) == f.flags
            &&& le32_at(data, h + 4) == f.blocks_per_frame
            &&& le32_at(data, h + 8) == f.final_frame_blocks
            &&& le32_at(data, h + 12) == f.total_frames
            &&& le16_at(data, h + 16) == f.bits_per_sample
            &&& le16_at(data, h + 18) == f.channels
            &&& le32_at(data, h + 20) == f.sample_rate
        }),
{
    let s = f.header_head();
    let data = lead + s + tail;
    let h = lead.len() as int;
    assert(s.subrange(0, 2) =~= le16_bytes(number_of_level(f.level)));
    assert(s.subrange(2, 4) =~= le16_bytes(f.flags as nat));
    assert(s.subrange(4, 8) =~= le32_bytes(f.blocks_per_frame as nat));
    assert(s.subrange(8, 12) =~= le32_bytes(f.final_frame_blocks as nat));
    assert(s.subrange(12, 16) =~= le32_bytes(f.total_frames as nat));
    assert(s.subrange(16, 18) =~= le16_bytes(f.bits_per_sample as nat));
    assert(s.subrange(18, 20) =~= le16_bytes(f.channels as nat));
    assert(s.subrange(20, 24) =~= le32_bytes(f.sample_rate as nat));
    lemma_middle(lead, s, tail, 0, 2);
    lemma_middle(lead, s, tail, 2, 4);
    lemma_middle(lead, s, tail, 4, 8);
    lemma_middle(lead, s, tail, 8, 12);
    lemma_middle(lead, s, tail, 12, 16);
    lemma_middle(lead, s, tail, 16, 18);
    lemma_middle(lead, s, tail, 18, 20);
    lemma_middle(lead, s, tail, 20, 24);
    lemma_le16_back(number_of_level(f.level), data, h);
    lemma_le16_back(f.flags as nat, data, h + 2);
    lemma_le32_back(f.blocks_per_frame as nat, data, h + 4);
    lemma_le32_back(f.final_frame_blocks as nat, data, h + 8);
    lemma_le32_back(f.total_frames as nat, data, h + 12);
    lemma_le16_back(f.bits_per_sample as nat, data, h + 16);
    lemma_le16_back(f.channels as nat, data, h + 18);
    lemma_le32_back(f.sample_rate as nat, data, h + 20);
}

/// What parsing a file with a descriptor gives.
pub open spec fn described_info(f: DescribedFile) -> FileModel {
    FileModel {
        junk_bytes: 0,
        version: f.version,
        compression_level: f.level,
        format_flags: FormatFlags(f.flags),
        channels: f.channels,
        sample_rate: f.sample_rate,
        bits_per_sample: f.bits_per_sample,
        blocks_per_frame: f.blocks_per_frame,
        final_frame_blocks: f.final_frame_blocks,
        total_frames: f.total_frames,
        peak_level: None,
        seek_table: f.seek,
        seek_bit_table: None,
        wav_header: f.wav,
        audio_data_offset: f.lead().len(),
        audio_data_len: f.frame_data_len,
        terminating_data_bytes: f.terminating,
        file_md5: Some(f.md5),
        descriptor: Some(
            DescriptorModel {
                descriptor_bytes: (52 + f.more_descriptor.len()) as u32,
                header_bytes: (24 + f.more_header.len()) as u32,
                seek_table_bytes: (4 * f.seek.len() + f.seek_rest.len()) as u32,
                header_data_bytes: f.wav.len() as u32,
                frame_data_len: f.frame_data_len,
                terminating_data_bytes: f.terminating,
                file_md5: f.md5,
            },
        ),
        data_len: f.file().len(),
    }
}

proof fn lemma_described_parts(f: DescribedFile)
    requires
        f.wf(),
    ensures
        ({
            let data = f.file();
            let h = 52 + f.more_descriptor.len();
            let s = h + 24 + f.more_header.len();
            let w = s + 4 * f.seek.len() + f.seek_rest.len();
            &&& f.descriptor().len() == h
            &&& f.lead().len() == w + f.wav.len()
            &&& data.subrange(36, 52) == f.md5
            &&& table_at(data, s as int, f.seek.len()) == f.seek
            &&& data.subrange(w as int, (w + f.wav.len()) as int) == f.wav
        }),
{
    let data = f.file();
    let d = f.descriptor();
    let h = f.header();
    let s = table_bytes(f.seek);
    lemma_described_numbers(f, Seq::empty());
    lemma_described_header(f, Seq::empty(), Seq::empty());
    lemma_table_bytes_len(f.seek);
    let tail = f.seek_rest + f.wav + f.rest;
    assert(data =~= (d + h) + s + tail);
    lemma_table_back(f.seek, data, d + h, tail);
    let q = d + h + s + f.seek_rest;
    assert(data =~= q + f.wav + f.rest);
    lemma_middle(q, f.wav, f.rest, 0, f.wav.len() as int);
    assert(f.wav.subrange(0, f.wav.len() as int) =~= f.wav);
    assert(data.subrange(36, 52) =~= f.md5);
}

/// The fields of a descriptor and a header block and the parts behind them
/// make up what is parsed.
proof fn lemma_described_parsed(f: DescribedFile, data: Seq<u8>, h: int, s: int, w: int, d: int)
    requires
        f.wf(),
        h == 52 + f.more_descriptor.len(),
        s == h + 24 + f.more_header.len(),
        w == s + 4 * f.seek.len() + f.seek_rest.len(),
        d == w + f.wav.len(),
        d <= data.len(),
        magic_at(data, 0),
        le16_at(data, 4) == f.version,
        le32_at(data, 8) == 52 + f.more_descriptor.len(),
        le32_at(data, 12) == 24 + f.more_header.len(),
        le32_at(data, 16) == 4 * f.seek.len() + f.seek_rest.len(),
        le32_at(data, 20) == f.wav.len(),
        le32_at(data, 24) + 0x1_0000_0000 * le32_at(data, 28) == f.frame_data_len,
        le32_at(data, 32) == f.terminating,
        data.subrange(36, 52) == f.md5,
        le16_at(data, h) == number_of_level(f.level),
        le16_at(data, h + 2) == f.flags,
        le32_at(data, h + 4) == f.blocks_per_frame,
        le32_at(data, h + 8) == f.final_frame_blocks,
        le32_at(data, h + 12) == f.total_frames,
        le16_at(data, h + 16) == f.bits_per_sample,
        le16_at(data, h + 18) == f.channels,
        le32_at(data, h + 20) == f.sample_rate,
        table_at(data, s, f.seek.len()) == f.seek,
        data.subrange(w, d) == f.wav,
        f.lead().len() == d,
        f.file().len() == data.len(),
    ensures
        parsed_at(data, 0) == Ok::<FileModel, Error>(described_info(f)),
{
    law_level_code_round_trip(f.level, 0);
    assert((4 * f.seek.len() + f.seek_rest.len()) as u32 / 4 == f.seek.len());
}

/// The fields of a whole file.
proof fn lemma_described_lead_numbers(f: DescribedFile)
    requires
        f.wf(),
    ensures
        ({
            let data = f.file();
            let h = 52 + f.more_descriptor.len() as int;
            &&& data.len() == f.lead().len() + f.rest.len()
            &&& magic_at(data, 0)
            &&& le16_at(data, 4) == f.version
            &&& le32_at(data, 8) == 52 + f.more_descriptor.len()
            &&& le32_at(data, 12) == 24 + f.more_header.len()
            &&& le32_at(data, 16) == 4 * f.seek.len() + f.seek_rest.len()
            &&& le32_at(data, 20) == f.wav.len()
            &&& le32_at(data, 24) + 0x1_0000_0000 * le32_at(data, 28) == f.frame_data_len
            &&& le32_at(data, 32) == f.terminating
            &&& le16_at(data, h) == number_of_level(f.level)
            &&& le16_at(data, h + 2) == f.flags
            &&& le32_at(data, h + 4) == f.blocks_per_frame
            &&& le32_at(data, h + 8) == f.final_frame_blocks
            &&& le32_at(data, h + 12) == f.total_frames
            &&& le16_at(data, h + 16) == f.bits_per_sample
            &&& le16_at(data, h + 18) == f.channels
            &&& le32_at(data, h + 20) == f.sample_rate
        }),
{
    let data = f.file();
    let s = table_bytes(f.seek);
    let after = f.seek_rest + f.wav + f.rest;
    let tail = f.md5 + f.more_descriptor + f.header() + s + after;
    assert(data =~= f.descriptor_head() + tail);
    lemma_described_numbers(f, tail);
    assert(data =~= f.descriptor() + f.header_head() + (f.more_header + s + after));
    lemma_described_header(f, f.descriptor(), f.more_header + s + after);
}

/// A file with a descriptor gives back every field that it was built from:
/// those of the descriptor, whatever a longer one holds; those of the
/// header block, whatever a longer one holds; the seek table, and the WAV
/// header.
pub proof fn law_descriptor_round_trip(f: DescribedFile)
    requires
        f.wf(),
    ensures
        parsed(f.file()) == Ok::<FileModel, Error>(described_info(f)),
{
    let data = f.file();
    let h = 52 + f.more_descriptor.len();
    let s = h + 24 + f.more_header.len();
    let w = s + 4 * f.seek.len() + f.seek_rest.len();
    let d = w + f.wav.len();
    lemma_described_lead_numbers(f);
    lemma_described_parts(f);
    lemma_parsed_from_start(data);
    lemma_described_parsed(f, data, h as int, s as int, w as int, d as int);
}

/// A layout as a file with a descriptor: version 3990, the shortest
/// descriptor and header block, and the digest of the WAV header, the
/// frames, what follows them, the header block and the seek table, in
/// this order.
pub open spec fn described(m: LayoutModel) -> DescribedFile {
    let f = DescribedFile {
        version: 3990,
        padding: m.descriptor_padding,
        frame_data_len: m.frame_data.len(),
        terminating: m.terminating_data.len() as u32,
        md5: Seq::empty(),
        more_descriptor: Seq::empty(),
        level: m.compression_level,
        flags: m.format_flags,
        blocks_per_frame: m.blocks_per_frame,
        final_frame_blocks: m.final_frame_blocks,
        total_frames: m.total_frames,
        bits_per_sample: m.bits_per_sample,
        channels: m.channels,
        sample_rate: m.sample_rate,
        more_header: Seq::empty(),
        seek: m.seek_table,
        seek_rest: Seq::empty(),
        wav: m.wav_header,
        rest: m.frame_data + m.terminating_data,
    };
    DescribedFile {
        md5: md5_of(
            m.wav_header + m.frame_data + m.terminating_data + f.header_head() + table_bytes(
                m.seek_table,
            ),
        ),
        ..f
    }
}

/// A written file is made of its fields, each at its place.
pub proof fn law_written_file(m: LayoutModel)
    requires
        storable(m),
        m.terminating_data.len() <= u32::MAX,
    ensures
        m.file() == described(m).file(),
        described(m).wf(),
{
    let f = described(m);
    let n = m.frame_data.len();
    reveal(LayoutModel::header);
    reveal(LayoutModel::descriptor_lead);
    lemma_md5_len(m.digested());
    assert((n / 0x1_0000_0000) % 0x1_0000_0000 == n / 0x1_0000_0000);
    assert(m.header() =~= f.header_head());
    assert(f.header() =~= m.header());
    assert(m.digested() == m.wav_header + m.frame_data + m.terminating_data + f.header_head()
        + table_bytes(m.seek_table));
    assert(MAGIC@ =~= seq![77u8, 65, 67, 32]);
    assert(4 * f.seek.len() + f.seek_rest.len() == 4 * m.seek_table.len());
    assert(m.descriptor_lead() =~= f.descriptor_head());
    assert(f.descriptor() =~= m.descriptor());
    lemma_same_parts(
        m.descriptor(),
        m.header(),
        table_bytes(m.seek_table),
        m.wav_header,
        m.frame_data,
        m.terminating_data,
    );
}

proof fn lemma_same_parts(
    d: Seq<u8>,
    h: Seq<u8>,
    s: Seq<u8>,
    w: Seq<u8>,
    a: Seq<u8>,
    b: Seq<u8>,
)
    ensures
        d + h + s + w + a + b == d + h + s + Seq::<u8>::empty() + w + (a + b),
{
    assert(d + h + s + w + a + b =~= d + h + s + Seq::<u8>::empty() + w + (a + b));
}

} // verus!
