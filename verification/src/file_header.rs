//! The file header in both of its layouts, and what follows from it.
//!
//! From file version 3980 on a descriptor gives the sizes of the blocks
//! that follow it: a header, the seek table, the stored WAV header and
//! the frames. Before that a flat header is followed by optional fields,
//! the WAV header and the seek table. Anything may precede the magic.

use vstd::prelude::*;
use vstd::slice::*;

use crate::bytes::{copy_range, le16_at, le32_at, read_le16, read_le32};
use crate::error::{Error, Result};
use crate::header::{level_of_code, CompressionLevel, MAGIC};

verus! {

/// First file version with a descriptor.
pub const NEW_ERA_VERSION: u16 = 3980;

/// Last file version with a table of bit offsets.
pub const SEEK_BIT_TABLE_MAX_VERSION: u16 = 3800;

/// Smallest descriptor.
pub const DESCRIPTOR_LEN: usize = 52;

/// Smallest header block behind a descriptor.
pub const NEW_HEADER_LEN: usize = 24;

/// Length of the flat header.
pub const OLD_HEADER_LEN: usize = 32;

/// Length of the WAV header that a decoder makes up.
pub const SYNTHESISED_WAV_HEADER_LEN: u32 = 44;

// ---------------------------------------------------------------------
// Flags
// ---------------------------------------------------------------------

/// Format flags of a file.
#[derive(Debug, Clone, Copy, PartialEq, Eq, Hash, Default, Structural)]
pub struct FormatFlags(pub u16);

impl FormatFlags {
    /// 8-bit samples, in flat headers.
    pub const EIGHT_BIT: u16 = 1;

    /// Newer checksum.
    pub const CRC: u16 = 2;

    /// A peak level follows the flat header.
    pub const HAS_PEAK_LEVEL: u16 = 4;

    /// 24-bit samples, in flat headers.
    pub const TWENTY_FOUR_BIT: u16 = 8;

    /// The number of seek entries follows the peak level.
    pub const HAS_SEEK_ELEMENTS: u16 = 16;

    /// No WAV header is stored.
    pub const CREATE_WAV_HEADER: u16 = 32;

    /// One of the bits in `bit` is set.
    pub open spec fn carries(self, bit: u16) -> bool {
        self.0 & bit != 0
    }

    /// Whether `bit` is set.
    pub fn has(self, bit: u16) -> (r: bool)
        ensures
            r == self.carries(bit),
    {
        self.0 & bit != 0
    }

    /// The bit depth that the flags of a flat header stand for.
    pub open spec fn old_depth(self) -> u16 {
        if self.carries(1) {
            8
        } else if self.carries(8) {
            24
        } else {
            16
        }
    }

    /// The bit depth that the flags of a flat header stand for: 8, else
    /// 24, else 16.
    pub fn bits_per_sample_old(self) -> (r: u16)
        ensures
            r == self.old_depth(),
    {
        if self.has(1) {
            8
        } else if self.has(8) {
            24
        } else {
            16
        }
    }
}

// ---------------------------------------------------------------------
// Descriptor
// ---------------------------------------------------------------------

/// The descriptor.
#[derive(Debug, Clone, Copy, PartialEq, Eq)]
pub struct ApeDescriptor {
    /// Length of the descriptor.
    pub descriptor_bytes: u32,
    /// Length of the header block.
    pub header_bytes: u32,
    /// Length of the seek table.
    pub seek_table_bytes: u32,
    /// Length of the stored WAV header.
    pub header_data_bytes: u32,
    /// Length of the frames, low part.
    pub ape_frame_data_bytes: u32,
    /// Length of the frames, high part.
    pub ape_frame_data_bytes_high: u32,
    /// Length of what followed the samples in the WAV file.
    pub terminating_data_bytes: u32,
    /// MD5 digest of the file.
    pub file_md5: [u8; 16],
}

/// What an [`ApeDescriptor`] stands for.
pub ghost struct DescriptorModel {
    pub descriptor_bytes: u32,
    pub header_bytes: u32,
    pub seek_table_bytes: u32,
    pub header_data_bytes: u32,
    pub frame_data_len: nat,
    pub terminating_data_bytes: u32,
    pub file_md5: Seq<u8>,
}

impl View for ApeDescriptor {
    type V = DescriptorModel;

    open spec fn view(&self) -> DescriptorModel {
        DescriptorModel {
            descriptor_bytes: self.descriptor_bytes,
            header_bytes: self.header_bytes,
            seek_table_bytes: self.seek_table_bytes,
            header_data_bytes: self.header_data_bytes,
            frame_data_len: (self.ape_frame_data_bytes + 0x1_0000_0000
                * self.ape_frame_data_bytes_high) as nat,
            terminating_data_bytes: self.terminating_data_bytes,
            file_md5: self.file_md5@,
        }
    }
}

impl ApeDescriptor {
    /// Length of the frames.
    pub fn frame_data_len(&self) -> (r: u64)
        ensures
            r == self@.frame_data_len,
    {
        self.ape_frame_data_bytes as u64 + 0x1_0000_0000 * (self.ape_frame_data_bytes_high as u64)
    }
}

/// The descriptor at `at`.
pub open spec fn descriptor_at(data: Seq<u8>, at: int) -> DescriptorModel {
    DescriptorModel {
        descriptor_bytes: le32_at(data, at + 8) as u32,
        header_bytes: le32_at(data, at + 12) as u32,
        seek_table_bytes: le32_at(data, at + 16) as u32,
        header_data_bytes: le32_at(data, at + 20) as u32,
        frame_data_len: le32_at(data, at + 24) + 0x1_0000_0000 * le32_at(data, at + 28),
        terminating_data_bytes: le32_at(data, at + 32) as u32,
        file_md5: data.subrange(at + 36, at + 52),
    }
}

/// Reads the descriptor at `at`.
fn read_descriptor(data: &[u8], at: usize) -> (r: ApeDescriptor)
    requires
        at + 52 <= data@.len(),
    ensures
        r@ == descriptor_at(data@, at as int),
{
    assert(data@.len() == data.len());
    let m = at + 36;
    let file_md5: [u8; 16] = [
        data[m], data[m + 1], data[m + 2], data[m + 3],
        data[m + 4], data[m + 5], data[m + 6], data[m + 7],
        data[m + 8], data[m + 9], data[m + 10], data[m + 11],
        data[m + 12], data[m + 13], data[m + 14], data[m + 15],
    ];
    assert(file_md5@ =~= data@.subrange(at as int + 36, at as int + 52));
    ApeDescriptor {
        descriptor_bytes: read_le32(data, at + 8),
        header_bytes: read_le32(data, at + 12),
        seek_table_bytes: read_le32(data, at + 16),
        header_data_bytes: read_le32(data, at + 20),
        ape_frame_data_bytes: read_le32(data, at + 24),
        ape_frame_data_bytes_high: read_le32(data, at + 28),
        terminating_data_bytes: read_le32(data, at + 32),
        file_md5,
    }
}

// ---------------------------------------------------------------------
// File information
// ---------------------------------------------------------------------

/// Everything that the header of a file tells, in either layout.
#[derive(Debug, Clone, PartialEq, Eq)]
pub struct FileInfo {
    /// Bytes before the magic.
    pub junk_bytes: usize,
    /// File version.
    pub version: u16,
    /// Compression level.
    pub compression_level: CompressionLevel,
    /// Format flags.
    pub format_flags: FormatFlags,
    /// Number of channels.
    pub channels: u16,
    /// Sample rate.
    pub sample_rate: u32,
    /// Bits per sample.
    pub bits_per_sample: u16,
    /// Blocks per frame, but for the last one.
    pub blocks_per_frame: u32,
    /// Blocks in the last frame.
    pub final_frame_blocks: u32,
    /// Number of frames.
    pub total_frames: u32,
    /// Peak level, where a flat header has one.
    pub peak_level: Option<u32>,
    /// Byte offset of every frame within the buffer.
    pub seek_table: Vec<u32>,
    /// Bit offset of every frame, in files up to version 3800.
    pub seek_bit_table: Option<Vec<u8>>,
    /// The stored WAV header.
    pub wav_header: Vec<u8>,
    /// Where the frames start.
    pub audio_data_offset: usize,
    /// Length of the frames.
    pub audio_data_len: u64,
    /// Length of what followed the samples in the WAV file.
    pub terminating_data_bytes: u32,
    /// MD5 digest of the file, from the descriptor.
    pub file_md5: Option<[u8; 16]>,
    /// The descriptor, where there is one.
    pub descriptor: Option<ApeDescriptor>,
    /// Length of the buffer that was parsed.
    pub data_len: usize,
}

/// What a [`FileInfo`] stands for.
pub ghost struct FileModel {
    pub junk_bytes: nat,
    pub version: u16,
    pub compression_level: CompressionLevel,
    pub format_flags: FormatFlags,
    pub channels: u16,
    pub sample_rate: u32,
    pub bits_per_sample: u16,
    pub blocks_per_frame: u32,
    pub final_frame_blocks: u32,
    pub total_frames: u32,
    pub peak_level: Option<u32>,
    pub seek_table: Seq<u32>,
    pub seek_bit_table: Option<Seq<u8>>,
    pub wav_header: Seq<u8>,
    pub audio_data_offset: nat,
    pub audio_data_len: nat,
    pub terminating_data_bytes: u32,
    pub file_md5: Option<Seq<u8>>,
    pub descriptor: Option<DescriptorModel>,
    pub data_len: nat,
}

impl View for FileInfo {
    type V = FileModel;

    open spec fn view(&self) -> FileModel {
        FileModel {
            junk_bytes: self.junk_bytes as nat,
            version: self.version,
            compression_level: self.compression_level,
            format_flags: self.format_flags,
            channels: self.channels,
            sample_rate: self.sample_rate,
            bits_per_sample: self.bits_per_sample,
            blocks_per_frame: self.blocks_per_frame,
            final_frame_blocks: self.final_frame_blocks,
            total_frames: self.total_frames,
            peak_level: self.peak_level,
            seek_table: self.seek_table@,
            seek_bit_table: match self.seek_bit_table {
                Some(t) => Some(t@),
                None => None,
            },
            wav_header: self.wav_header@,
            audio_data_offset: self.audio_data_offset as nat,
            audio_data_len: self.audio_data_len as nat,
            terminating_data_bytes: self.terminating_data_bytes,
            file_md5: match self.file_md5 {
                Some(m) => Some(m@),
                None => None,
            },
            descriptor: match self.descriptor {
                Some(d) => Some(d@),
                None => None,
            },
            data_len: self.data_len as nat,
        }
    }
}

/// The magic stands at `p`.
pub open spec fn magic_at(data: Seq<u8>, p: int) -> bool {
    0 <= p && p + 4 <= data.len() && data.subrange(p, p + 4) == MAGIC@
}

/// The 32-bit numbers of a table of `n` entries at `at`.
pub open spec fn table_at(data: Seq<u8>, at: int, n: nat) -> Seq<u32> {
    Seq::new(n, |k: int| le32_at(data, at + 4 * k) as u32)
}

/// What the file with a descriptor at `at` holds.
pub open spec fn parsed_new_era(data: Seq<u8>, at: int) -> Result<FileModel> {
    let len = data.len();
    let d = descriptor_at(data, at);
    let h = at + d.descriptor_bytes;
    let seek = h + d.header_bytes;
    let wav = seek + d.seek_table_bytes;
    let audio = wav + d.header_data_bytes;
    if at + 12 > len {
        Err(Error::Truncated)
    } else if d.descriptor_bytes < 52 {
        Err(Error::Malformed("descriptor shorter than 52 bytes"))
    } else if at + 52 > len {
        Err(Error::Truncated)
    } else if d.header_bytes < 24 {
        Err(Error::Malformed("header block shorter than 24 bytes"))
    } else if h + 2 > len {
        Err(Error::Truncated)
    } else {
        match level_of_code(le16_at(data, h) as u16) {
            Err(e) => Err(e),
            Ok(level) => if audio > len {
                Err(Error::Truncated)
            } else if le32_at(data, h + 12) == 0 {
                Err(Error::NonFinalized)
            } else {
                Ok(
                    FileModel {
                        junk_bytes: at as nat,
                        version: le16_at(data, at + 4) as u16,
                        compression_level: level,
                        format_flags: FormatFlags(le16_at(data, h + 2) as u16),
                        channels: le16_at(data, h + 18) as u16,
                        sample_rate: le32_at(data, h + 20) as u32,
                        bits_per_sample: le16_at(data, h + 16) as u16,
                        blocks_per_frame: le32_at(data, h + 4) as u32,
                        final_frame_blocks: le32_at(data, h + 8) as u32,
                        total_frames: le32_at(data, h + 12) as u32,
                        peak_level: None,
                        seek_table: table_at(data, seek, (d.seek_table_bytes / 4) as nat),
                        seek_bit_table: None,
                        wav_header: data.subrange(wav, audio),
                        audio_data_offset: audio as nat,
                        audio_data_len: d.frame_data_len,
                        terminating_data_bytes: d.terminating_data_bytes,
                        file_md5: Some(d.file_md5),
                        descriptor: Some(d),
                        data_len: len,
                    },
                )
            },
        }
    }
}

/// `a - b`, or zero.
pub open spec fn minus(a: int, b: int) -> nat {
    if a >= b {
        (a - b) as nat
    } else {
        0
    }
}

/// The blocks per frame that a flat header stands for.
pub open spec fn old_frame_blocks(version: u16, level: CompressionLevel) -> u32 {
    if version >= 3950 {
        294912
    } else if version >= 3900 || (version >= 3800 && level == CompressionLevel::ExtraHigh) {
        73728
    } else {
        9216
    }
}

/// The flags of the flat header at `at`.
pub open spec fn old_flags(data: Seq<u8>, at: int) -> FormatFlags {
    FormatFlags(le16_at(data, at + 8) as u16)
}

/// Where the optional peak level behind a flat header ends.
pub open spec fn old_peak_end(data: Seq<u8>, at: int) -> int {
    at + 32 + if old_flags(data, at).carries(4) {
        4int
    } else {
        0
    }
}

/// Where the optional number of seek entries ends.
pub open spec fn old_count_end(data: Seq<u8>, at: int) -> int {
    old_peak_end(data, at) + if old_flags(data, at).carries(16) {
        4int
    } else {
        0
    }
}

/// The number of seek entries: the stored one, else the number of frames.
pub open spec fn old_elements(data: Seq<u8>, at: int) -> nat {
    if old_flags(data, at).carries(16) {
        le32_at(data, old_peak_end(data, at))
    } else {
        le32_at(data, at + 24)
    }
}

/// Where the optional WAV header ends.
pub open spec fn old_wav_end(data: Seq<u8>, at: int) -> int {
    old_count_end(data, at) + if old_flags(data, at).carries(32) {
        0
    } else {
        le32_at(data, at + 16) as int
    }
}

/// Where the seek table ends.
pub open spec fn old_seek_end(data: Seq<u8>, at: int) -> int {
    old_wav_end(data, at) + 4 * old_elements(data, at)
}

/// Where the optional bit offsets end.
pub open spec fn old_bits_end(data: Seq<u8>, at: int) -> int {
    old_seek_end(data, at) + if le16_at(data, at + 4) <= SEEK_BIT_TABLE_MAX_VERSION {
        old_elements(data, at) as int
    } else {
        0
    }
}

/// What the file with a flat header at `at` holds.
pub open spec fn parsed_old_era(data: Seq<u8>, at: int) -> Result<FileModel> {
    let len = data.len();
    let version = le16_at(data, at + 4) as u16;
    let flags = old_flags(data, at);
    let terminating = le32_at(data, at + 20);
    let frames = le32_at(data, at + 24);
    let after_count = old_count_end(data, at);
    let seek = old_wav_end(data, at);
    let bits = old_seek_end(data, at);
    let audio = old_bits_end(data, at);
    if at + 8 > len {
        Err(Error::Truncated)
    } else {
        match level_of_code(le16_at(data, at + 6) as u16) {
            Err(e) => Err(e),
            Ok(level) => if at + 32 > len || after_count > len || audio > len {
                Err(Error::Truncated)
            } else if frames == 0 {
                Err(Error::NonFinalized)
            } else {
                Ok(
                    FileModel {
                        junk_bytes: at as nat,
                        version,
                        compression_level: level,
                        format_flags: flags,
                        channels: le16_at(data, at + 10) as u16,
                        sample_rate: le32_at(data, at + 12) as u32,
                        bits_per_sample: flags.old_depth(),
                        blocks_per_frame: old_frame_blocks(version, level),
                        final_frame_blocks: le32_at(data, at + 28) as u32,
                        total_frames: frames as u32,
                        peak_level: if flags.carries(4) {
                            Some(le32_at(data, at + 32) as u32)
                        } else {
                            None
                        },
                        seek_table: table_at(data, seek, old_elements(data, at)),
                        seek_bit_table: if version <= SEEK_BIT_TABLE_MAX_VERSION {
                            Some(data.subrange(bits, audio))
                        } else {
                            None
                        },
                        wav_header: data.subrange(after_count, seek),
                        audio_data_offset: audio as nat,
                        audio_data_len: minus(minus(len as int, audio) as int, terminating as int),
                        terminating_data_bytes: terminating as u32,
                        file_md5: None,
                        descriptor: None,
                        data_len: len,
                    },
                )
            },
        }
    }
}

/// What the file whose magic should stand at `at` holds.
pub open spec fn parsed_at(data: Seq<u8>, at: int) -> Result<FileModel> {
    if at + 4 > data.len() {
        Err(Error::Truncated)
    } else if !magic_at(data, at) {
        Err(Error::InvalidMagic)
    } else if at + 6 > data.len() {
        Err(Error::Truncated)
    } else if le16_at(data, at + 4) >= NEW_ERA_VERSION {
        parsed_new_era(data, at)
    } else {
        parsed_old_era(data, at)
    }
}

/// `p` is where the magic first occurs.
pub open spec fn first_magic(data: Seq<u8>, p: int) -> bool {
    magic_at(data, p) && forall|q: int| 0 <= q < p ==> !#[trigger] magic_at(data, q)
}

/// The magic occurs.
pub open spec fn has_magic(data: Seq<u8>) -> bool {
    exists|p: int| magic_at(data, p)
}

/// What a file holds, from the first magic on.
pub open spec fn parsed(data: Seq<u8>) -> Result<FileModel> {
    if has_magic(data) {
        parsed_at(data, choose|p: int| first_magic(data, p))
    } else {
        Err(Error::InvalidMagic)
    }
}

/// There is one first magic.
pub proof fn lemma_first_magic_unique(data: Seq<u8>, p: int, q: int)
    requires
        first_magic(data, p),
        first_magic(data, q),
    ensures
        p == q,
{
}

/// Whether the magic stands at `at`.
fn magic_stands(data: &[u8], at: usize) -> (r: bool)
    requires
        at + 4 <= data@.len(),
    ensures
        r == magic_at(data@, at as int),
{
    assert(data@.len() == data.len());
    let same = data[at] == 77 && data[at + 1] == 65 && data[at + 2] == 67 && data[at + 3] == 32;
    proof {
        let sub = data@.subrange(at as int, at + 4);
        assert(sub[0] == data@[at as int] && sub[1] == data@[at + 1] && sub[2] == data@[at + 2]
            && sub[3] == data@[at + 3]);
        if same {
            assert(sub =~= MAGIC@);
        } else {
            assert(sub != MAGIC@);
        }
    }
    same
}

/// The end of a block of `n` bytes at `pos`, if it lies within `len`.
fn block_end(pos: usize, n: usize, len: usize) -> (r: Option<usize>)
    requires
        pos <= len,
    ensures
        r == (if pos + n <= len {
            Some((pos + n) as usize)
        } else {
            None::<usize>
        }),
{
    if n <= len - pos {
        Some(pos + n)
    } else {
        None
    }
}

/// Reads a table of `n` 32-bit numbers at `at`.
fn read_table(data: &[u8], at: usize, n: usize) -> (r: Vec<u32>)
    requires
        at + 4 * n <= data@.len(),
    ensures
        r@ == table_at(data@, at as int, n as nat),
{
    let mut out: Vec<u32> = Vec::new();
    let mut k: usize = 0;
    assert(data@.len() == data.len());
    while k < n
        invariant
            k <= n,
            at + 4 * n <= data.len(),
            out@ == table_at(data@, at as int, k as nat),
        decreases n - k,
    {
        out.push(read_le32(data, at + 4 * k));
        k = k + 1;
        assert(out@ =~= table_at(data@, at as int, k as nat));
    }
    out
}

impl FileInfo {
    /// What parsing guarantees.
    pub open spec fn wf(&self) -> bool {
        &&& self.total_frames >= 1
        &&& self.audio_data_offset <= self.data_len
    }

    /// Where the magic first occurs.
    pub fn find_magic(data: &[u8]) -> (r: Option<usize>)
        ensures
            match r {
                Some(p) => first_magic(data@, p as int),
                None => !has_magic(data@),
            },
    {
        if data.len() < 4 {
            return None;
        }
        let mut p: usize = 0;
        while p <= data.len() - 4
            invariant
                4 <= data@.len(),
                p <= data@.len() - 3,
                forall|q: int| 0 <= q < p ==> !#[trigger] magic_at(data@, q),
            decreases data@.len() - p,
        {
            if magic_stands(data, p) {
                return Some(p);
            }
            p = p + 1;
        }
        None
    }

    /// Parses a file, whatever precedes the magic.
    pub fn parse(data: &[u8]) -> (r: Result<Self>)
        ensures
            match parsed(data@) {
                Ok(m) => r is Ok && r->Ok_0@ == m && r->Ok_0.wf(),
                Err(e) => r == Err::<FileInfo, Error>(e),
            },
    {
        match Self::find_magic(data) {
            None => Err(Error::InvalidMagic),
            Some(junk) => {
                proof {
                    assert(magic_at(data@, junk as int));
                    lemma_first_magic_unique(
                        data@,
                        junk as int,
                        choose|p: int| first_magic(data@, p),
                    );
                }
                Self::parse_at(data, junk)
            },
        }
    }

    /// Parses a file whose magic stands at `junk`.
    pub fn parse_at(data: &[u8], junk: usize) -> (r: Result<Self>)
        ensures
            match parsed_at(data@, junk as int) {
                Ok(m) => r is Ok && r->Ok_0@ == m && r->Ok_0.wf(),
                Err(e) => r == Err::<FileInfo, Error>(e),
            },
    {
        let len: usize = data.len();
        if junk > len || len - junk < 4 {
            return Err(Error::Truncated);
        }
        if !magic_stands(data, junk) {
            return Err(Error::InvalidMagic);
        }
        if len - junk < 6 {
            return Err(Error::Truncated);
        }
        if read_le16(data, junk + 4) >= NEW_ERA_VERSION {
            Self::parse_new_era(data, junk)
        } else {
            Self::parse_old_era(data, junk)
        }
    }

    /// Parses a file with a descriptor.
    fn parse_new_era(data: &[u8], junk: usize) -> (r: Result<Self>)
        requires
            junk + 6 <= data@.len(),
        ensures
            match parsed_new_era(data@, junk as int) {
                Ok(m) => r is Ok && r->Ok_0@ == m && r->Ok_0.wf(),
                Err(e) => r == Err::<FileInfo, Error>(e),
            },
    {
        let len: usize = data.len();
        if len - junk < 12 {
            return Err(Error::Truncated);
        }
        if read_le32(data, junk + 8) < 52 {
            return Err(Error::Malformed("descriptor shorter than 52 bytes"));
        }
        if len - junk < 52 {
            return Err(Error::Truncated);
        }
        let desc = read_descriptor(data, junk);
        if desc.header_bytes < 24 {
            return Err(Error::Malformed("header block shorter than 24 bytes"));
        }
        let h = match block_end(junk, desc.descriptor_bytes as usize, len) {
            None => {
                return Err(Error::Truncated);
            },
            Some(h) => h,
        };
        if len - h < 2 {
            return Err(Error::Truncated);
        }
        let compression_level = match CompressionLevel::from_u16(read_le16(data, h)) {
            Err(e) => {
                return Err(e);
            },
            Ok(level) => level,
        };
        let seek = match block_end(h, desc.header_bytes as usize, len) {
            None => {
                return Err(Error::Truncated);
            },
            Some(p) => p,
        };
        let wav = match block_end(seek, desc.seek_table_bytes as usize, len) {
            None => {
                return Err(Error::Truncated);
            },
            Some(p) => p,
        };
        let audio = match block_end(wav, desc.header_data_bytes as usize, len) {
            None => {
                return Err(Error::Truncated);
            },
            Some(p) => p,
        };
        let total_frames = read_le32(data, h + 12);
        if total_frames == 0 {
            return Err(Error::NonFinalized);
        }
        let seek_table = read_table(data, seek, (desc.seek_table_bytes / 4) as usize);
        let info = FileInfo {
            junk_bytes: junk,
            version: read_le16(data, junk + 4),
            compression_level,
            format_flags: FormatFlags(read_le16(data, h + 2)),
            channels: read_le16(data, h + 18),
            sample_rate: read_le32(data, h + 20),
            bits_per_sample: read_le16(data, h + 16),
            blocks_per_frame: read_le32(data, h + 4),
            final_frame_blocks: read_le32(data, h + 8),
            total_frames,
            peak_level: None,
            seek_table,
            seek_bit_table: None,
            wav_header: copy_range(data, wav, audio),
            audio_data_offset: audio,
            audio_data_len: desc.frame_data_len(),
            terminating_data_bytes: desc.terminating_data_bytes,
            file_md5: Some(desc.file_md5),
            descriptor: Some(desc),
            data_len: len,
        };
        Ok(info)
    }

    /// Parses a file with a flat header.
    #[verifier::rlimit(40)]
    fn parse_old_era(data: &[u8], junk: usize) -> (r: Result<Self>)
        requires
            junk + 6 <= data@.len(),
        ensures
            match parsed_old_era(data@, junk as int) {
                Ok(m) => r is Ok && r->Ok_0@ == m && r->Ok_0.wf(),
                Err(e) => r == Err::<FileInfo, Error>(e),
            },
    {
        let len: usize = data.len();
        if len - junk < 8 {
            return Err(Error::Truncated);
        }
        let version = read_le16(data, junk + 4);
        let compression_level = match CompressionLevel::from_u16(read_le16(data, junk + 6)) {
            Err(e) => {
                return Err(e);
            },
            Ok(level) => level,
        };
        if len - junk < 32 {
            return Err(Error::Truncated);
        }
        let format_flags = FormatFlags(read_le16(data, junk + 8));
        let wav_header_bytes = read_le32(data, junk + 16);
        let terminating_bytes = read_le32(data, junk + 20);
        let total_frames = read_le32(data, junk + 24);
        let has_peak = format_flags.has(4);
        let has_count = format_flags.has(16);
        let no_wav = format_flags.has(32);
        let peak_at: usize = junk + 32;
        let count_at = match block_end(
            peak_at,
            if has_peak {
                4
            } else {
                0
            },
            len,
        ) {
            None => {
                return Err(Error::Truncated);
            },
            Some(p) => p,
        };
        let wav_at = match block_end(
            count_at,
            if has_count {
                4
            } else {
                0
            },
            len,
        ) {
            None => {
                return Err(Error::Truncated);
            },
            Some(p) => p,
        };
        assert(count_at == old_peak_end(data@, junk as int));
        assert(wav_at == old_count_end(data@, junk as int));
        let peak_level: Option<u32> = if has_peak {
            Some(read_le32(data, peak_at))
        } else {
            None
        };
        let elements: u32 = if has_count {
            read_le32(data, count_at)
        } else {
            total_frames
        };
        let seek = match block_end(
            wav_at,
            if no_wav {
                0
            } else {
                wav_header_bytes as usize
            },
            len,
        ) {
            None => {
                return Err(Error::Truncated);
            },
            Some(p) => p,
        };
        assert(elements == old_elements(data@, junk as int));
        assert(seek == old_wav_end(data@, junk as int));
        if elements as usize > (len - seek) / 4 {
            return Err(Error::Truncated);
        }
        let bits: usize = seek + 4 * (elements as usize);
        let has_bits = version <= SEEK_BIT_TABLE_MAX_VERSION;
        let audio = match block_end(
            bits,
            if has_bits {
                elements as usize
            } else {
                0
            },
            len,
        ) {
            None => {
                return Err(Error::Truncated);
            },
            Some(p) => p,
        };
        assert(bits == old_seek_end(data@, junk as int));
        assert(audio == old_bits_end(data@, junk as int));
        if total_frames == 0 {
            return Err(Error::NonFinalized);
        }
        let seek_table = read_table(data, seek, elements as usize);
        let seek_bit_table: Option<Vec<u8>> = if has_bits {
            Some(copy_range(data, bits, audio))
        } else {
            None
        };
        let audio_data_len: u64 = (len as u64).saturating_sub(audio as u64).saturating_sub(
            terminating_bytes as u64,
        );
        let info = FileInfo {
            junk_bytes: junk,
            version,
            compression_level,
            format_flags,
            channels: read_le16(data, junk + 10),
            sample_rate: read_le32(data, junk + 12),
            bits_per_sample: format_flags.bits_per_sample_old(),
            blocks_per_frame: old_blocks_per_frame(version, compression_level),
            final_frame_blocks: read_le32(data, junk + 28),
            total_frames,
            peak_level,
            seek_table,
            seek_bit_table,
            wav_header: copy_range(data, wav_at, seek),
            audio_data_offset: audio,
            audio_data_len,
            terminating_data_bytes: terminating_bytes,
            file_md5: None,
            descriptor: None,
            data_len: len,
        };
        Ok(info)
    }

    /// Bytes per sample.
    pub fn bytes_per_sample(&self) -> (r: u16)
        ensures
            r == self.bits_per_sample / 8,
    {
        self.bits_per_sample / 8
    }

    /// Bytes per block of samples.
    pub fn block_align(&self) -> (r: u32)
        ensures
            r == (self.bits_per_sample / 8) * self.channels,
    {
        assert((self.bits_per_sample / 8) * self.channels <= 8191 * 0xFFFF) by (nonlinear_arith)
            requires
                0 <= self.bits_per_sample / 8 <= 8191,
                0 <= self.channels <= 0xFFFF,
        ;
        self.bytes_per_sample() as u32 * self.channels as u32
    }

    /// Number of blocks in the whole file.
    pub fn total_blocks(&self) -> (r: u64)
        requires
            self.wf(),
        ensures
            r == (self.total_frames - 1) * self.blocks_per_frame + self.final_frame_blocks,
    {
        assert((self.total_frames - 1) * self.blocks_per_frame <= 0xFFFF_FFFE * 0xFFFF_FFFF)
            by (nonlinear_arith)
            requires
                0 <= self.total_frames - 1 <= 0xFFFF_FFFE,
                0 <= self.blocks_per_frame <= 0xFFFF_FFFF,
        ;
        (self.total_frames - 1) as u64 * self.blocks_per_frame as u64
            + self.final_frame_blocks as u64
    }

    /// Length of the WAV header, as a 32-bit number: that of the one that
    /// a decoder makes up where none is stored.
    pub fn wav_header_bytes(&self) -> (r: u32)
        ensures
            r == (if self.format_flags.carries(32) {
                44
            } else {
                self.wav_header@.len() % 0x1_0000_0000
            }),
    {
        if self.format_flags.has(FormatFlags::CREATE_WAV_HEADER) {
            SYNTHESISED_WAV_HEADER_LEN
        } else {
            (self.wav_header.len() as u64 % 0x1_0000_0000) as u32
        }
    }

    /// Number of blocks in frame `index`.
    pub fn frame_blocks(&self, index: u32) -> (r: Result<u32>)
        ensures
            r == blocks_of_frame(self@, index),
    {
        if index >= self.total_frames {
            return Err(Error::Malformed("frame index past total_frames"));
        }
        if index + 1 == self.total_frames {
            Ok(self.final_frame_blocks)
        } else {
            Ok(self.blocks_per_frame)
        }
    }

    /// Where the frames end, if that is a 64-bit number; the largest one
    /// otherwise.
    pub fn audio_data_end(&self) -> (r: u64)
        ensures
            r == audio_end(self@),
    {
        (self.audio_data_offset as u64).saturating_add(self.audio_data_len)
    }

    /// The byte range of frame `index` within the buffer: from its seek
    /// entry to the next one, or to the end of the frames.
    pub fn frame_byte_range(&self, index: u32) -> (r: Result<(u64, u64)>)
        ensures
            r == range_of_frame(self@, index),
    {
        let i: usize = index as usize;
        if index >= self.total_frames {
            return Err(Error::Malformed("frame index past total_frames"));
        }
        if i >= self.seek_table.len() {
            return Err(Error::Malformed("seek table shorter than total_frames"));
        }
        let start: u64 = self.seek_table[i] as u64;
        let last: u64 = self.audio_data_end();
        let mut end: u64 = last;
        if self.seek_table.len() - i > 1 {
            let next: u64 = self.seek_table[i + 1] as u64;
            if next <= last {
                end = next;
            }
        }
        if start < self.audio_data_offset as u64 || end < start {
            return Err(Error::Malformed("seek table entry outside frame payload"));
        }
        Ok((start, end))
    }

    /// Length of the buffer that was parsed.
    pub fn data_len(&self) -> (r: usize)
        ensures
            r == self@.data_len,
    {
        self.data_len
    }
}

/// Number of blocks in frame `index`.
pub open spec fn blocks_of_frame(m: FileModel, index: u32) -> Result<u32> {
    if index >= m.total_frames {
        Err(Error::Malformed("frame index past total_frames"))
    } else if index + 1 == m.total_frames {
        Ok(m.final_frame_blocks)
    } else {
        Ok(m.blocks_per_frame)
    }
}

/// Where the frames end, up to the largest 64-bit number.
pub open spec fn audio_end(m: FileModel) -> nat {
    if m.audio_data_offset + m.audio_data_len <= u64::MAX {
        m.audio_data_offset + m.audio_data_len
    } else {
        u64::MAX as nat
    }
}

/// The byte range of frame `index`.
pub open spec fn range_of_frame(m: FileModel, index: u32) -> Result<(u64, u64)> {
    let i = index as int;
    if index >= m.total_frames {
        Err(Error::Malformed("frame index past total_frames"))
    } else if i >= m.seek_table.len() {
        Err(Error::Malformed("seek table shorter than total_frames"))
    } else {
        let start = m.seek_table[i] as nat;
        let end = if i + 1 < m.seek_table.len() && m.seek_table[i + 1] <= audio_end(m) {
            m.seek_table[i + 1] as nat
        } else {
            audio_end(m)
        };
        if start < m.audio_data_offset || end < start {
            Err(Error::Malformed("seek table entry outside frame payload"))
        } else {
            Ok((start as u64, end as u64))
        }
    }
}

/// The blocks per frame that a flat header stands for.
pub fn old_blocks_per_frame(version: u16, level: CompressionLevel) -> (r: u32)
    ensures
        r == old_frame_blocks(version, level),
{
    if version >= 3950 {
        294912
    } else if version >= 3900 || (version >= 3800 && level == CompressionLevel::ExtraHigh) {
        73728
    } else {
        9216
    }
}

} // verus!
