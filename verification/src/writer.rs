//! Writing a file: the descriptor, the header, the seek table, the WAV
//! header, the frames and what followed the samples, in this order.

use vstd::prelude::*;

use crate::bytes::{
    le16_bytes, le32_bytes, lemma_le16_len, lemma_le32_len, push_le16, push_le32, push_slice,
};
use crate::file_header::{DESCRIPTOR_LEN, NEW_HEADER_LEN};
use crate::header::{level_code, CompressionLevel, MAGIC};
use crate::md5::{fresh_md5, law_md5_streaming, md5_of, Md5};

verus! {

broadcast use {lemma_le16_len, lemma_le32_len};

/// The file version that the encoder writes.
pub const ENCODER_FILE_VERSION: u16 = 3990;

/// The digest covers what followed the samples right after the frames.
pub const TERMINATING_DATA_IN_MD5_AFTER_FRAMES: bool = true;

// ---------------------------------------------------------------------
// Word layout
// ---------------------------------------------------------------------

/// `n`, rounded up to a multiple of four.
pub open spec fn padded_len(n: nat) -> nat {
    ((n + 3) / 4) * 4
}

/// The stored form of a byte stream: padded with zeros to whole 32-bit
/// words, the order of bytes reversed within each word.
pub open spec fn word_layout(logical: Seq<u8>) -> Seq<u8> {
    Seq::new(
        padded_len(logical.len()),
        |p: int|
            {
                let q = (p / 4) * 4 + (3 - p % 4);
                if q < logical.len() {
                    logical[q]
                } else {
                    0
                }
            },
    )
}

/// Byte `i` of a stream, zero past its end.
spec fn byte_or_zero(logical: Seq<u8>, i: int) -> u8 {
    if i < logical.len() {
        logical[i]
    } else {
        0
    }
}

/// One word of the stored form.
proof fn lemma_word_at(logical: Seq<u8>, g: int)
    requires
        0 <= g < logical.len(),
        g % 4 == 0,
    ensures
        g + 4 <= word_layout(logical).len(),
        logical.len() - g <= 4 ==> word_layout(logical).len() == g + 4,
        word_layout(logical).take(g + 4) == word_layout(logical).take(g).push(
            byte_or_zero(logical, g + 3),
        ).push(byte_or_zero(logical, g + 2)).push(byte_or_zero(logical, g + 1)).push(logical[g]),
{
    let whole = word_layout(logical);
    assert(whole[g] == byte_or_zero(logical, g + 3));
    assert(whole[g + 1] == byte_or_zero(logical, g + 2));
    assert(whole[g + 2] == byte_or_zero(logical, g + 1));
    assert(whole[g + 3] == logical[g]);
    assert(whole.take(g + 4) =~= whole.take(g).push(whole[g]).push(whole[g + 1]).push(
        whole[g + 2],
    ).push(whole[g + 3]));
}

/// The stored form of a byte stream.
pub fn to_le_word_layout(logical: Vec<u8>) -> (r: Vec<u8>)
    ensures
        r@ == word_layout(logical@),
{
    let n: usize = logical.len();
    let mut out: Vec<u8> = Vec::new();
    let mut g: usize = 0;
    let ghost whole = word_layout(logical@);
    assert(whole.take(0) =~= out@);
    while g < n
        invariant
            g <= n,
            n == logical@.len(),
            g % 4 == 0,
            n == 0 || g < n,
            whole == word_layout(logical@),
            out@ == whole.take(g as int),
        decreases n - g,
    {
        let left: usize = n - g;
        let b3: u8 = if left > 3 {
            logical[g + 3]
        } else {
            0
        };
        let b2: u8 = if left > 2 {
            logical[g + 2]
        } else {
            0
        };
        let b1: u8 = if left > 1 {
            logical[g + 1]
        } else {
            0
        };
        out.push(b3);
        out.push(b2);
        out.push(b1);
        out.push(logical[g]);
        proof {
            lemma_word_at(logical@, g as int);
        }
        assert(out@ == whole.take(g as int + 4));
        if left <= 4 {
            assert(whole.take(g as int + 4) =~= whole);
            return out;
        }
        g = g + 4;
    }
    assert(whole.take(0) =~= whole);
    out
}

/// Reading the stored form word by word gives the stream back.
pub proof fn law_word_layout_read_back(logical: Seq<u8>, j: int)
    requires
        0 <= j < logical.len(),
    ensures
        crate::range_coder::ordered_byte(word_layout(logical), true, j) == logical[j],
{
    let p = (j / 4) * 4 + (3 - j % 4);
    assert(p / 4 == j / 4);
    assert(p % 4 == 3 - j % 4);
    assert((p / 4) * 4 + (3 - p % 4) == j);
    assert(0 <= p < padded_len(logical.len()));
}

// ---------------------------------------------------------------------
// Blocks
// ---------------------------------------------------------------------

/// Everything that a file stores.
#[derive(Debug, Clone, PartialEq, Eq)]
pub struct FileLayout {
    /// The two unused bytes of the descriptor.
    pub descriptor_padding: [u8; 2],
    /// Compression level.
    pub compression_level: CompressionLevel,
    /// Format flags.
    pub format_flags: u16,
    /// Blocks per frame, but for the last one.
    pub blocks_per_frame: u32,
    /// Blocks in the last frame.
    pub final_frame_blocks: u32,
    /// Number of frames.
    pub total_frames: u32,
    /// Bits per sample.
    pub bits_per_sample: u16,
    /// Number of channels.
    pub channels: u16,
    /// Sample rate.
    pub sample_rate: u32,
    /// Byte offset of every frame within the file.
    pub seek_table: Vec<u32>,
    /// The WAV header.
    pub wav_header: Vec<u8>,
    /// The frames, in their stored form.
    pub frame_data: Vec<u8>,
    /// What followed the samples in the WAV file.
    pub terminating_data: Vec<u8>,
}

/// What a [`FileLayout`] stands for.
pub ghost struct LayoutModel {
    pub descriptor_padding: Seq<u8>,
    pub compression_level: CompressionLevel,
    pub format_flags: u16,
    pub blocks_per_frame: u32,
    pub final_frame_blocks: u32,
    pub total_frames: u32,
    pub bits_per_sample: u16,
    pub channels: u16,
    pub sample_rate: u32,
    pub seek_table: Seq<u32>,
    pub wav_header: Seq<u8>,
    pub frame_data: Seq<u8>,
    pub terminating_data: Seq<u8>,
}

impl View for FileLayout {
    type V = LayoutModel;

    open spec fn view(&self) -> LayoutModel {
        LayoutModel {
            descriptor_padding: self.descriptor_padding@,
            compression_level: self.compression_level,
            format_flags: self.format_flags,
            blocks_per_frame: self.blocks_per_frame,
            final_frame_blocks: self.final_frame_blocks,
            total_frames: self.total_frames,
            bits_per_sample: self.bits_per_sample,
            channels: self.channels,
            sample_rate: self.sample_rate,
            seek_table: self.seek_table@,
            wav_header: self.wav_header@,
            frame_data: self.frame_data@,
            terminating_data: self.terminating_data@,
        }
    }
}

/// A table of 32-bit numbers.
pub open spec fn table_bytes(table: Seq<u32>) -> Seq<u8>
    decreases table.len(),
{
    if table.len() == 0 {
        Seq::empty()
    } else {
        table_bytes(table.drop_last()) + le32_bytes(table.last() as nat)
    }
}

impl LayoutModel {
    /// The header block.
    #[verifier::opaque]
    pub open spec fn header(self) -> Seq<u8> {
        le16_bytes(level_code(self.compression_level) as nat) + le16_bytes(
            self.format_flags as nat,
        ) + le32_bytes(self.blocks_per_frame as nat) + le32_bytes(self.final_frame_blocks as nat)
            + le32_bytes(self.total_frames as nat) + le16_bytes(self.bits_per_sample as nat)
            + le16_bytes(self.channels as nat) + le32_bytes(self.sample_rate as nat)
    }

    /// What the digest covers.
    pub open spec fn digested(self) -> Seq<u8> {
        self.wav_header + self.frame_data + self.terminating_data + self.header() + table_bytes(
            self.seek_table,
        )
    }

    /// The descriptor up to the digest.
    #[verifier::opaque]
    pub open spec fn descriptor_lead(self) -> Seq<u8> {
        MAGIC@ + le16_bytes(ENCODER_FILE_VERSION as nat) + self.descriptor_padding + le32_bytes(52)
            + le32_bytes(24) + le32_bytes((4 * self.seek_table.len()) % 0x1_0000_0000)
            + le32_bytes(self.wav_header.len() % 0x1_0000_0000) + le32_bytes(
            self.frame_data.len() % 0x1_0000_0000,
        ) + le32_bytes((self.frame_data.len() / 0x1_0000_0000) % 0x1_0000_0000) + le32_bytes(
            self.terminating_data.len() % 0x1_0000_0000,
        )
    }

    /// The descriptor.
    pub open spec fn descriptor(self) -> Seq<u8> {
        self.descriptor_lead() + md5_of(self.digested())
    }

    /// The whole file.
    pub open spec fn file(self) -> Seq<u8> {
        self.descriptor() + self.header() + table_bytes(self.seek_table) + self.wav_header
            + self.frame_data + self.terminating_data
    }

    /// Where the frames start.
    pub open spec fn audio_start(self) -> nat {
        76 + 4 * self.seek_table.len() + self.wav_header.len()
    }
}

/// The length of a table.
pub proof fn lemma_table_bytes_len(table: Seq<u32>)
    ensures
        table_bytes(table).len() == 4 * table.len(),
    decreases table.len(),
{
    if table.len() > 0 {
        lemma_table_bytes_len(table.drop_last());
    }
}

/// The digest has 16 bytes.
pub proof fn lemma_md5_len(message: Seq<u8>)
    ensures
        md5_of(message).len() == 16,
{
    reveal(md5_of);
}

/// The descriptor up to the digest has 36 bytes.
pub proof fn lemma_descriptor_lead_len(m: LayoutModel)
    requires
        m.descriptor_padding.len() == 2,
    ensures
        m.descriptor_lead().len() == 36,
{
    reveal(LayoutModel::descriptor_lead);
}

impl FileLayout {
    /// Where the frames start.
    pub fn audio_data_offset(&self) -> (r: usize)
        requires
            self@.audio_start() <= usize::MAX,
        ensures
            r == self@.audio_start(),
    {
        DESCRIPTOR_LEN + NEW_HEADER_LEN + self.seek_table.len() * 4 + self.wav_header.len()
    }

    /// The header block.
    pub fn header_block(&self) -> (r: [u8; 24])
        ensures
            r@ == self@.header(),
    {
        let mut h: Vec<u8> = Vec::new();
        push_le16(&mut h, self.compression_level.as_u16());
        push_le16(&mut h, self.format_flags);
        push_le32(&mut h, self.blocks_per_frame);
        push_le32(&mut h, self.final_frame_blocks);
        push_le32(&mut h, self.total_frames);
        push_le16(&mut h, self.bits_per_sample);
        push_le16(&mut h, self.channels);
        push_le32(&mut h, self.sample_rate);
        assert(h@ =~= self@.header() && h@.len() == 24) by {
            reveal(LayoutModel::header);
        }
        let r: [u8; 24] = [
            h[0], h[1], h[2], h[3], h[4], h[5], h[6], h[7],
            h[8], h[9], h[10], h[11], h[12], h[13], h[14], h[15],
            h[16], h[17], h[18], h[19], h[20], h[21], h[22], h[23],
        ];
        assert(r@ =~= h@);
        r
    }

    /// The seek table.
    pub fn seek_table_bytes(&self) -> (r: Vec<u8>)
        ensures
            r@ == table_bytes(self.seek_table@),
    {
        let mut out: Vec<u8> = Vec::new();
        let mut i: usize = 0;
        assert(self.seek_table@.take(0) =~= Seq::<u32>::empty());
        assert(out@ =~= table_bytes(Seq::<u32>::empty()));
        while i < self.seek_table.len()
            invariant
                i <= self.seek_table@.len(),
                out@ == table_bytes(self.seek_table@.take(i as int)),
            decreases self.seek_table@.len() - i,
        {
            push_le32(&mut out, self.seek_table[i]);
            assert(self.seek_table@.take(i as int + 1).drop_last() =~= self.seek_table@.take(
                i as int,
            ));
            i = i + 1;
        }
        assert(self.seek_table@.take(i as int) =~= self.seek_table@);
        out
    }

    /// The digest of the WAV header, the frames, what followed the
    /// samples, the header block and the seek table.
    pub fn file_md5(&self) -> (r: [u8; 16])
        ensures
            r@ == md5_of(self@.digested()),
    {
        let mut h = Md5::new();
        h.update(self.wav_header.as_slice());
        h.update(self.frame_data.as_slice());
        if TERMINATING_DATA_IN_MD5_AFTER_FRAMES {
            h.update(self.terminating_data.as_slice());
        }
        let header = self.header_block();
        h.update(header.as_slice());
        let table = self.seek_table_bytes();
        h.update(table.as_slice());
        proof {
            reveal(md5_of);
            let m = self@;
            let s = fresh_md5();
            law_md5_streaming(s, m.wav_header, m.frame_data);
            law_md5_streaming(s, m.wav_header + m.frame_data, m.terminating_data);
            law_md5_streaming(
                s,
                m.wav_header + m.frame_data + m.terminating_data,
                m.header(),
            );
            law_md5_streaming(
                s,
                m.wav_header + m.frame_data + m.terminating_data + m.header(),
                table_bytes(m.seek_table),
            );
        }
        h.finish()
    }

    /// The descriptor, as a vector.
    fn descriptor_vec(&self) -> (d: Vec<u8>)
        requires
            4 * self.seek_table@.len() <= usize::MAX,
        ensures
            d@ == self@.descriptor(),
            d@.len() == 52,
    {
        let mut d = self.lead_vec();
        let md5 = self.file_md5();
        push_slice(&mut d, md5.as_slice());
        proof {
            lemma_md5_len(self@.digested());
            lemma_descriptor_lead_len(self@);
        }
        d
    }

    /// The descriptor up to the digest.
    fn lead_vec(&self) -> (d: Vec<u8>)
        requires
            4 * self.seek_table@.len() <= usize::MAX,
        ensures
            d@ == self@.descriptor_lead(),
    {
        proof {
            reveal(LayoutModel::descriptor_lead);
        }
        let mut d: Vec<u8> = Vec::new();
        d.push(77);
        d.push(65);
        d.push(67);
        d.push(32);
        push_le16(&mut d, ENCODER_FILE_VERSION);
        d.push(self.descriptor_padding[0]);
        d.push(self.descriptor_padding[1]);
        assert(d@ =~= MAGIC@ + le16_bytes(ENCODER_FILE_VERSION as nat)
            + self.descriptor_padding@);
        push_le32(&mut d, 52);
        push_le32(&mut d, 24);
        push_le32(&mut d, ((self.seek_table.len() as u64 * 4) % 0x1_0000_0000) as u32);
        push_le32(&mut d, (self.wav_header.len() as u64 % 0x1_0000_0000) as u32);
        let frame_len: u64 = self.frame_data.len() as u64;
        push_le32(&mut d, (frame_len % 0x1_0000_0000) as u32);
        push_le32(&mut d, (frame_len / 0x1_0000_0000) as u32);
        push_le32(&mut d, (self.terminating_data.len() as u64 % 0x1_0000_0000) as u32);
        d
    }

    /// The descriptor.
    pub fn descriptor_block(&self) -> (r: [u8; 52])
        requires
            4 * self.seek_table@.len() <= usize::MAX,
        ensures
            r@ == self@.descriptor(),
    {
        let d = self.descriptor_vec();
        let r: [u8; 52] = [
            d[0], d[1], d[2], d[3], d[4], d[5], d[6], d[7],
            d[8], d[9], d[10], d[11], d[12], d[13], d[14], d[15],
            d[16], d[17], d[18], d[19], d[20], d[21], d[22], d[23],
            d[24], d[25], d[26], d[27], d[28], d[29], d[30], d[31],
            d[32], d[33], d[34], d[35], d[36], d[37], d[38], d[39],
            d[40], d[41], d[42], d[43], d[44], d[45], d[46], d[47],
            d[48], d[49], d[50], d[51],
        ];
        assert(r@ =~= d@);
        r
    }

    /// The whole file.
    pub fn serialize(&self) -> (r: Vec<u8>)
        requires
            4 * self.seek_table@.len() <= usize::MAX,
        ensures
            r@ == self@.file(),
    {
        let mut out = self.descriptor_vec();
        let header = self.header_block();
        push_slice(&mut out, header.as_slice());
        let table = self.seek_table_bytes();
        push_slice(&mut out, table.as_slice());
        push_slice(&mut out, self.wav_header.as_slice());
        push_slice(&mut out, self.frame_data.as_slice());
        push_slice(&mut out, self.terminating_data.as_slice());
        out
    }
}

// ---------------------------------------------------------------------
// WAV header
// ---------------------------------------------------------------------

/// Bytes per block of samples, the sample rounded up to whole bytes.
pub open spec fn wav_align(channels: u16, bits_per_sample: u16) -> nat {
    channels as nat * ((bits_per_sample + 7) / 8) as nat
}

/// The 44 bytes of a WAV header for `data_len` bytes of samples.
pub open spec fn wav_header_for(
    channels: u16,
    sample_rate: u32,
    bits_per_sample: u16,
    data_len: u32,
) -> Seq<u8> {
    let align = wav_align(channels, bits_per_sample);
    seq![82u8, 73, 70, 70] + le32_bytes(((data_len + 36) % 0x1_0000_0000) as nat)
        + seq![87u8, 65, 86, 69] + seq![102u8, 109, 116, 32] + le32_bytes(16) + le16_bytes(1)
        + le16_bytes(channels as nat) + le32_bytes(sample_rate as nat) + le32_bytes(
        sample_rate as nat * align,
    ) + le16_bytes(align) + le16_bytes(bits_per_sample as nat) + seq![100u8, 97, 116, 97]
        + le32_bytes(data_len as nat)
}

/// Appends four bytes.
fn push_tag(out: &mut Vec<u8>, a: u8, b: u8, c: u8, d: u8)
    ensures
        final(out)@ == old(out)@ + seq![a, b, c, d],
{
    out.push(a);
    out.push(b);
    out.push(c);
    out.push(d);
    assert(out@ =~= old(out)@ + seq![a, b, c, d]);
}

/// The WAV header for `data_len` bytes of samples.
pub fn canonical_wav_header(
    channels: u16,
    sample_rate: u32,
    bits_per_sample: u16,
    data_len: u32,
) -> (h: Vec<u8>)
    requires
        wav_align(channels, bits_per_sample) <= u16::MAX,
        sample_rate * wav_align(channels, bits_per_sample) <= u32::MAX,
    ensures
        h@ == wav_header_for(channels, sample_rate, bits_per_sample, data_len),
{
    let size: u16 = ((bits_per_sample as u32 + 7) / 8) as u16;
    let block_align: u16 = channels * size;
    let byte_rate: u32 = sample_rate * block_align as u32;
    let mut h: Vec<u8> = Vec::new();
    push_tag(&mut h, 82, 73, 70, 70);
    push_le32(&mut h, data_len.wrapping_add(36));
    push_tag(&mut h, 87, 65, 86, 69);
    push_tag(&mut h, 102, 109, 116, 32);
    push_le32(&mut h, 16);
    push_le16(&mut h, 1);
    push_le16(&mut h, channels);
    push_le32(&mut h, sample_rate);
    push_le32(&mut h, byte_rate);
    push_le16(&mut h, block_align);
    push_le16(&mut h, bits_per_sample);
    push_tag(&mut h, 100, 97, 116, 97);
    push_le32(&mut h, data_len);
    assert(h@ =~= wav_header_for(channels, sample_rate, bits_per_sample, data_len));
    h
}

} // verus!
