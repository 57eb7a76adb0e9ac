//! A file decodes to the samples it was encoded from.

use vstd::arithmetic::div_mod::{lemma_mod_bound, lemma_mod_decreases};
use vstd::prelude::*;

use crate::bytes::{
    le16_at, le16_bytes, le32_at, le32_bytes, lemma_le16_back, lemma_le16_len, lemma_le32_back,
    lemma_le32_len,
};
use crate::decoder::{pcm_of_frame, pcm_of_frames, region_of, residuals_of};
use crate::encoder::{
    appended, chunk, config_error, encoded_file, encoded_pcm, format_at, frame_bytes, frame_chunk,
    frame_count, frame_end, frame_error, in_depth, is_wav_config, layout_of, lemma_chunk_valid,
    lemma_fit_is_depth, lemma_frame_count, lemma_layout_fields, lemma_layout_seek, no_samples,
    push_error, stream_bytes, tag_at, wav_split, wav_walk, EncoderConfig, WavFormat,
};
use crate::error::{Error, Result};
use crate::file_header::{
    audio_end, blocks_of_frame, descriptor_at, first_magic, has_magic, lemma_first_magic_unique,
    magic_at, old_bits_end, old_count_end, old_elements, old_flags, old_peak_end, old_seek_end,
    old_wav_end, parsed, parsed_at, parsed_new_era, parsed_old_era, range_of_frame, table_at,
    DescriptorModel, FileModel, FormatFlags,
};
use crate::frame::{frame_at, stored_crc, MAX_FRAME_BLOCKS};
use crate::frame_laws::{law_frame_round_trip, stored_at};
use crate::header::{law_level_code_round_trip, level_code, CompressionLevel, MAGIC};
use crate::md5::md5_of;
use crate::pcm::{
    block_bytes, channel_len, deinterleaved, frame_samples, interleaved, is_depth,
    law_interleave_deinterleaved, same_lengths,
};
use crate::range_coder::ordered_byte;
use crate::writer::{
    law_word_layout_read_back, lemma_descriptor_lead_len, lemma_md5_len, lemma_table_bytes_len,
    padded_len, table_bytes, wav_header_for, word_layout, LayoutModel, ENCODER_FILE_VERSION,
};

verus! {

broadcast use {lemma_le16_len, lemma_le32_len};

// ---------------------------------------------------------------------
// Reading a layout back
// ---------------------------------------------------------------------

/// A part of the middle of three pieces.
pub proof fn lemma_middle(pre: Seq<u8>, mid: Seq<u8>, post: Seq<u8>, a: int, b: int)
    requires
        0 <= a <= b <= mid.len(),
    ensures
        (pre + mid + post).subrange(pre.len() + a, pre.len() + b) == mid.subrange(a, b),
{
    assert((pre + mid + post).subrange(pre.len() + a, pre.len() + b) =~= mid.subrange(a, b));
}

/// The fields of a descriptor.
proof fn lemma_lead_fields(m: LayoutModel)
    requires
        m.descriptor_padding.len() == 2,
    ensures
        ({
            let s = m.descriptor_lead();
            &&& s.len() == 36
            &&& s.subrange(0, 4) == MAGIC@
            &&& s.subrange(4, 6) == le16_bytes(ENCODER_FILE_VERSION as nat)
            &&& s.subrange(8, 12) == le32_bytes(52)
            &&& s.subrange(12, 16) == le32_bytes(24)
            &&& s.subrange(16, 20) == le32_bytes((4 * m.seek_table.len()) % 0x1_0000_0000)
            &&& s.subrange(20, 24) == le32_bytes(m.wav_header.len() % 0x1_0000_0000)
            &&& s.subrange(24, 28) == le32_bytes(m.frame_data.len() % 0x1_0000_0000)
            &&& s.subrange(28, 32) == le32_bytes(
                (m.frame_data.len() / 0x1_0000_0000) % 0x1_0000_0000,
            )
            &&& s.subrange(32, 36) == le32_bytes(m.terminating_data.len() % 0x1_0000_0000)
        }),
{
    reveal(LayoutModel::descriptor_lead);
    let s = m.descriptor_lead();
    lemma_descriptor_lead_len(m);
    assert(s.subrange(0, 4) =~= MAGIC@);
    assert(s.subrange(4, 6) =~= le16_bytes(ENCODER_FILE_VERSION as nat));
    assert(s.subrange(8, 12) =~= le32_bytes(52));
    assert(s.subrange(12, 16) =~= le32_bytes(24));
    assert(s.subrange(16, 20) =~= le32_bytes((4 * m.seek_table.len()) % 0x1_0000_0000));
    assert(s.subrange(20, 24) =~= le32_bytes(m.wav_header.len() % 0x1_0000_0000));
    assert(s.subrange(24, 28) =~= le32_bytes(m.frame_data.len() % 0x1_0000_0000));
    assert(s.subrange(28, 32) =~= le32_bytes(
        (m.frame_data.len() / 0x1_0000_0000) % 0x1_0000_0000,
    ));
    assert(s.subrange(32, 36) =~= le32_bytes(m.terminating_data.len() % 0x1_0000_0000));
}

/// The fields of a header block.
proof fn lemma_header_fields(m: LayoutModel)
    ensures
        ({
            let s = m.header();
            &&& s.len() == 24
            &&& s.subrange(0, 2) == le16_bytes(level_code(m.compression_level) as nat)
            &&& s.subrange(2, 4) == le16_bytes(m.format_flags as nat)
            &&& s.subrange(4, 8) == le32_bytes(m.blocks_per_frame as nat)
            &&& s.subrange(8, 12) == le32_bytes(m.final_frame_blocks as nat)
            &&& s.subrange(12, 16) == le32_bytes(m.total_frames as nat)
            &&& s.subrange(16, 18) == le16_bytes(m.bits_per_sample as nat)
            &&& s.subrange(18, 20) == le16_bytes(m.channels as nat)
            &&& s.subrange(20, 24) == le32_bytes(m.sample_rate as nat)
        }),
{
    reveal(LayoutModel::header);
    let s = m.header();
    assert(s.subrange(0, 2) =~= le16_bytes(level_code(m.compression_level) as nat));
    assert(s.subrange(2, 4) =~= le16_bytes(m.format_flags as nat));
    assert(s.subrange(4, 8) =~= le32_bytes(m.blocks_per_frame as nat));
    assert(s.subrange(8, 12) =~= le32_bytes(m.final_frame_blocks as nat));
    assert(s.subrange(12, 16) =~= le32_bytes(m.total_frames as nat));
    assert(s.subrange(16, 18) =~= le16_bytes(m.bits_per_sample as nat));
    assert(s.subrange(18, 20) =~= le16_bytes(m.channels as nat));
    assert(s.subrange(20, 24) =~= le32_bytes(m.sample_rate as nat));
}

/// An entry of a table.
proof fn lemma_table_entry(table: Seq<u32>, k: int)
    requires
        0 <= k < table.len(),
    ensures
        table_bytes(table).subrange(4 * k, 4 * k + 4) == le32_bytes(table[k] as nat),
        table_bytes(table).len() == 4 * table.len(),
    decreases table.len(),
{
    lemma_table_bytes_len(table);
    lemma_table_bytes_len(table.drop_last());
    let head = table_bytes(table.drop_last());
    if k == table.len() - 1 {
        assert(table_bytes(table).subrange(4 * k, 4 * k + 4) =~= le32_bytes(table[k] as nat));
    } else {
        lemma_table_entry(table.drop_last(), k);
        assert(table_bytes(table).subrange(4 * k, 4 * k + 4) =~= head.subrange(4 * k, 4 * k + 4));
    }
}

/// A layout whose sizes fit their fields.
pub open spec fn storable(m: LayoutModel) -> bool {
    &&& m.descriptor_padding.len() == 2
    &&& 4 * m.seek_table.len() < 0x1_0000_0000
    &&& m.wav_header.len() < 0x1_0000_0000
    &&& m.frame_data.len() < 0x1_0000_0000_0000_0000
    &&& m.total_frames >= 1
}

/// What the file of a layout holds, `len` being its length with whatever
/// follows it.
pub open spec fn layout_info(m: LayoutModel, len: nat) -> FileModel {
    FileModel {
        junk_bytes: 0,
        version: ENCODER_FILE_VERSION,
        compression_level: m.compression_level,
        format_flags: FormatFlags(m.format_flags),
        channels: m.channels,
        sample_rate: m.sample_rate,
        bits_per_sample: m.bits_per_sample,
        blocks_per_frame: m.blocks_per_frame,
        final_frame_blocks: m.final_frame_blocks,
        total_frames: m.total_frames,
        peak_level: None,
        seek_table: m.seek_table,
        seek_bit_table: None,
        wav_header: m.wav_header,
        audio_data_offset: m.audio_start(),
        audio_data_len: m.frame_data.len(),
        terminating_data_bytes: (m.terminating_data.len() % 0x1_0000_0000) as u32,
        file_md5: Some(md5_of(m.digested())),
        descriptor: Some(
            DescriptorModel {
                descriptor_bytes: 52,
                header_bytes: 24,
                seek_table_bytes: (4 * m.seek_table.len()) as u32,
                header_data_bytes: m.wav_header.len() as u32,
                frame_data_len: m.frame_data.len(),
                terminating_data_bytes: (m.terminating_data.len() % 0x1_0000_0000) as u32,
                file_md5: md5_of(m.digested()),
            },
        ),
        data_len: len,
    }
}

/// The descriptor of a layout is read back.
proof fn lemma_descriptor_back(m: LayoutModel, data: Seq<u8>, rest: Seq<u8>)
    requires
        storable(m),
        data == m.descriptor() + rest,
    ensures
        data.len() >= 52,
        magic_at(data, 0),
        le16_at(data, 4) == ENCODER_FILE_VERSION,
        descriptor_at(data, 0) == layout_info(m, 0).descriptor->Some_0,
{
    let lead = m.descriptor_lead();
    let digest = md5_of(m.digested());
    lemma_lead_fields(m);
    lemma_md5_len(m.digested());
    let post = digest + rest;
    assert(data =~= Seq::<u8>::empty() + lead + post);
    let e = Seq::<u8>::empty();
    lemma_middle(e, lead, post, 0, 4);
    lemma_middle(e, lead, post, 4, 6);
    lemma_middle(e, lead, post, 8, 12);
    lemma_middle(e, lead, post, 12, 16);
    lemma_middle(e, lead, post, 16, 20);
    lemma_middle(e, lead, post, 20, 24);
    lemma_middle(e, lead, post, 24, 28);
    lemma_middle(e, lead, post, 28, 32);
    lemma_middle(e, lead, post, 32, 36);
    lemma_le16_back(ENCODER_FILE_VERSION as nat, data, 4);
    lemma_le32_back(52, data, 8);
    lemma_le32_back(24, data, 12);
    lemma_le32_back((4 * m.seek_table.len()) % 0x1_0000_0000, data, 16);
    lemma_le32_back(m.wav_header.len() % 0x1_0000_0000, data, 20);
    lemma_le32_back(m.frame_data.len() % 0x1_0000_0000, data, 24);
    lemma_le32_back((m.frame_data.len() / 0x1_0000_0000) % 0x1_0000_0000, data, 28);
    lemma_le32_back(m.terminating_data.len() % 0x1_0000_0000, data, 32);
    assert(data.subrange(36, 52) =~= digest);
    let n = m.frame_data.len();
    assert((n / 0x1_0000_0000) % 0x1_0000_0000 == n / 0x1_0000_0000);
    assert(n % 0x1_0000_0000 + 0x1_0000_0000 * (n / 0x1_0000_0000) == n);
}

/// The header block of a layout is read back.
proof fn lemma_header_back(m: LayoutModel, data: Seq<u8>, lead: Seq<u8>, rest: Seq<u8>)
    requires
        lead.len() == 52,
        data == lead + m.header() + rest,
    ensures
        le16_at(data, 52) == level_code(m.compression_level),
        le16_at(data, 54) == m.format_flags,
        le32_at(data, 56) == m.blocks_per_frame,
        le32_at(data, 60) == m.final_frame_blocks,
        le32_at(data, 64) == m.total_frames,
        le16_at(data, 68) == m.bits_per_sample,
        le16_at(data, 70) == m.channels,
        le32_at(data, 72) == m.sample_rate,
{
    let h = m.header();
    lemma_header_fields(m);
    lemma_middle(lead, h, rest, 0, 2);
    lemma_middle(lead, h, rest, 2, 4);
    lemma_middle(lead, h, rest, 4, 8);
    lemma_middle(lead, h, rest, 8, 12);
    lemma_middle(lead, h, rest, 12, 16);
    lemma_middle(lead, h, rest, 16, 18);
    lemma_middle(lead, h, rest, 18, 20);
    lemma_middle(lead, h, rest, 20, 24);
    lemma_le16_back(level_code(m.compression_level) as nat, data, 52);
    lemma_le16_back(m.format_flags as nat, data, 54);
    lemma_le32_back(m.blocks_per_frame as nat, data, 56);
    lemma_le32_back(m.final_frame_blocks as nat, data, 60);
    lemma_le32_back(m.total_frames as nat, data, 64);
    lemma_le16_back(m.bits_per_sample as nat, data, 68);
    lemma_le16_back(m.channels as nat, data, 70);
    lemma_le32_back(m.sample_rate as nat, data, 72);
}

/// The seek table of a layout is read back.
pub proof fn lemma_table_back(table: Seq<u32>, data: Seq<u8>, lead: Seq<u8>, rest: Seq<u8>)
    requires
        data == lead + table_bytes(table) + rest,
    ensures
        table_at(data, lead.len() as int, table.len()) == table,
{
    let t = table_at(data, lead.len() as int, table.len());
    assert forall|k: int| 0 <= k < table.len() implies t[k] == table[k] by {
        lemma_table_entry(table, k);
        lemma_middle(lead, table_bytes(table), rest, 4 * k, 4 * k + 4);
        lemma_le32_back(table[k] as nat, data, lead.len() + 4 * k);
    }
    assert(t =~= table);
}

/// The parts of the file of a layout are where they should be.
#[verifier::rlimit(40)]
proof fn lemma_layout_parts(m: LayoutModel, data: Seq<u8>, tail: Seq<u8>)
    requires
        storable(m),
        data == m.file() + tail,
    ensures
        data.len() >= m.audio_start(),
        magic_at(data, 0),
        le16_at(data, 4) == ENCODER_FILE_VERSION,
        descriptor_at(data, 0) == layout_info(m, 0).descriptor->Some_0,
        le16_at(data, 52) == level_code(m.compression_level),
        le16_at(data, 54) == m.format_flags,
        le32_at(data, 56) == m.blocks_per_frame,
        le32_at(data, 60) == m.final_frame_blocks,
        le32_at(data, 64) == m.total_frames,
        le16_at(data, 68) == m.bits_per_sample,
        le16_at(data, 70) == m.channels,
        le32_at(data, 72) == m.sample_rate,
        table_at(data, 76, m.seek_table.len()) == m.seek_table,
        data.subrange(76 + 4 * m.seek_table.len() as int, m.audio_start() as int) == m.wav_header,
        data.len() == m.audio_start() + m.frame_data.len() + m.terminating_data.len() + tail.len(),
        data.subrange(
            m.audio_start() as int,
            (m.audio_start() + m.frame_data.len()) as int,
        ) == m.frame_data,
{
    let table = table_bytes(m.seek_table);
    let d = m.descriptor();
    let h = m.header();
    lemma_descriptor_lead_len(m);
    lemma_md5_len(m.digested());
    lemma_header_fields(m);
    lemma_table_bytes_len(m.seek_table);
    let rest3 = m.wav_header + m.frame_data + m.terminating_data + tail;
    let rest4 = m.frame_data + m.terminating_data + tail;
    let rest5 = m.terminating_data + tail;
    assert(data =~= d + (h + table + rest3));
    assert(data =~= d + h + (table + rest3));
    assert(data =~= (d + h) + table + rest3);
    assert(data =~= (d + h + table) + m.wav_header + rest4);
    assert(data =~= (d + h + table + m.wav_header) + m.frame_data + rest5);
    lemma_descriptor_back(m, data, h + table + rest3);
    lemma_header_back(m, data, d, table + rest3);
    lemma_table_back(m.seek_table, data, d + h, rest3);
    lemma_middle(d + h + table, m.wav_header, rest4, 0, m.wav_header.len() as int);
    assert(m.wav_header.subrange(0, m.wav_header.len() as int) =~= m.wav_header);
    lemma_middle(
        d + h + table + m.wav_header,
        m.frame_data,
        rest5,
        0,
        m.frame_data.len() as int,
    );
    assert(m.frame_data.subrange(0, m.frame_data.len() as int) =~= m.frame_data);
}

/// Parsing the file of a layout, whatever follows it, gives the layout
/// back, the stored WAV header included.
#[verifier::rlimit(40)]
pub proof fn law_layout_round_trip(m: LayoutModel, tail: Seq<u8>)
    requires
        storable(m),
    ensures
        parsed(m.file() + tail) == Ok::<FileModel, Error>(
            layout_info(m, (m.file() + tail).len()),
        ),
{
    let data = m.file() + tail;
    lemma_layout_parts(m, data, tail);
    law_level_code_round_trip(m.compression_level, 0);
    assert(first_magic(data, 0));
    assert(has_magic(data));
    lemma_first_magic_unique(data, 0, choose|p: int| first_magic(data, p));
    assert((4 * m.seek_table.len()) as u32 / 4 == m.seek_table.len());
}

// ---------------------------------------------------------------------
// Samples of a file
// ---------------------------------------------------------------------

proof fn lemma_chunk_block(pcm: Seq<Seq<i32>>, bits: u16, from: int, to: int, i: int, c: nat)
    requires
        c <= pcm.len(),
        same_lengths(pcm),
        0 <= from <= from + i < to <= channel_len(pcm),
        0 <= i,
    ensures
        block_bytes(chunk(pcm, from, to), bits, i, c) == block_bytes(pcm, bits, from + i, c),
    decreases c,
{
    if c > 0 {
        lemma_chunk_block(pcm, bits, from, to, i, (c - 1) as nat);
        assert(pcm[c - 1].len() == channel_len(pcm));
        assert(chunk(pcm, from, to)[c - 1][i] == pcm[c - 1][from + i]);
    }
}

/// Interleaved samples, cut in two.
proof fn lemma_interleaved_split(pcm: Seq<Seq<i32>>, bits: u16, from: nat, to: nat, k: nat)
    requires
        same_lengths(pcm),
        from + k <= to <= channel_len(pcm),
    ensures
        interleaved(pcm, bits, from + k) == interleaved(pcm, bits, from) + interleaved(
            chunk(pcm, from as int, to as int),
            bits,
            k,
        ),
    decreases k,
{
    let ch = chunk(pcm, from as int, to as int);
    if k == 0 {
        assert(interleaved(pcm, bits, from) + interleaved(ch, bits, 0) =~= interleaved(
            pcm,
            bits,
            from,
        ));
    } else {
        let j = (k - 1) as nat;
        lemma_interleaved_split(pcm, bits, from, to, j);
        lemma_chunk_block(pcm, bits, from as int, to as int, j as int, pcm.len());
        let block = block_bytes(pcm, bits, (from + j) as int, pcm.len());
        assert(interleaved(pcm, bits, from + k) == interleaved(pcm, bits, from + j) + block);
        assert(interleaved(ch, bits, k) == interleaved(ch, bits, j) + block);
        assert(interleaved(pcm, bits, from) + interleaved(ch, bits, j) + block =~= interleaved(
            pcm,
            bits,
            from,
        ) + (interleaved(ch, bits, j) + block));
    }
}

/// Where a frame stands in the stream of frames.
proof fn lemma_stream_slice(
    pcm: Seq<Seq<i32>>,
    level: CompressionLevel,
    bits: u16,
    bpf: nat,
    i: nat,
    k: nat,
)
    requires
        i < k,
    ensures
        ({
            let all = stream_bytes(pcm, level, bits, bpf, k);
            let at = stream_bytes(pcm, level, bits, bpf, i).len();
            let f = frame_bytes(frame_chunk(pcm, bpf, i), level, bits);
            &&& at + f.len() <= all.len()
            &&& all.subrange(at as int, (at + f.len()) as int) == f
            &&& stream_bytes(pcm, level, bits, bpf, i + 1).len() == at + f.len()
        }),
    decreases k,
{
    let all = stream_bytes(pcm, level, bits, bpf, k);
    let head = stream_bytes(pcm, level, bits, bpf, (k - 1) as nat);
    let at = stream_bytes(pcm, level, bits, bpf, i).len();
    let f = frame_bytes(frame_chunk(pcm, bpf, i), level, bits);
    if i == k - 1 {
        assert(all.subrange(at as int, (at + f.len()) as int) =~= f);
    } else {
        lemma_stream_slice(pcm, level, bits, bpf, i, (k - 1) as nat);
        assert(all.subrange(at as int, (at + f.len()) as int) =~= head.subrange(
            at as int,
            (at + f.len()) as int,
        ));
    }
}

/// A frame has at least a prologue.
proof fn lemma_frame_not_short(pcm: Seq<Seq<i32>>, level: CompressionLevel, bits: u16)
    ensures
        frame_bytes(pcm, level, bits).len() >= 4,
{
    reveal(frame_bytes);
}

/// A stream of frames in its stored form.
proof fn lemma_stored_frame(
    pcm: Seq<Seq<i32>>,
    level: CompressionLevel,
    bits: u16,
    bpf: nat,
    i: nat,
    k: nat,
)
    requires
        i < k,
    ensures
        ({
            let audio = word_layout(stream_bytes(pcm, level, bits, bpf, k));
            let at = stream_bytes(pcm, level, bits, bpf, i).len();
            &&& at + 4 <= audio.len()
            &&& stored_at(audio, at, frame_bytes(frame_chunk(pcm, bpf, i), level, bits))
        }),
{
    let all = stream_bytes(pcm, level, bits, bpf, k);
    let audio = word_layout(all);
    let at = stream_bytes(pcm, level, bits, bpf, i).len();
    let f = frame_bytes(frame_chunk(pcm, bpf, i), level, bits);
    lemma_stream_slice(pcm, level, bits, bpf, i, k);
    lemma_frame_not_short(frame_chunk(pcm, bpf, i), level, bits);
    assert(audio.len() >= all.len());
    assert forall|j: int| 0 <= j < f.len() implies #[trigger] ordered_byte(audio, true, at + j)
        == f[j] by {
        law_word_layout_read_back(all, at + j);
        assert(all.subrange(at as int, (at + f.len()) as int)[j] == all[at + j]);
    }
}

/// The file of `pcm` is short enough for 32-bit seek entries.
pub open spec fn seekable(cfg: EncoderConfig, pcm: Seq<Seq<i32>>) -> bool {
    let bpf = cfg.blocks_per_frame as nat;
    layout_of(cfg, pcm).audio_start() + stream_bytes(
        pcm,
        cfg.compression_level,
        cfg.bits_per_sample,
        bpf,
        frame_count(channel_len(pcm), bpf),
    ).len() <= u32::MAX
}

/// What the file of `pcm` holds.
pub open spec fn file_info(cfg: EncoderConfig, pcm: Seq<Seq<i32>>) -> FileModel {
    layout_info(layout_of(cfg, pcm), encoded_file(cfg, pcm)->Ok_0.len())
}

/// The configuration and the samples can be encoded.
pub open spec fn encodable(cfg: EncoderConfig, pcm: Seq<Seq<i32>>) -> bool {
    config_error(cfg) is None && push_error(cfg, pcm) is None
}

/// The layout of an encoded file can be stored and read back.
proof fn lemma_layout_storable(cfg: EncoderConfig, pcm: Seq<Seq<i32>>)
    requires
        encodable(cfg, pcm),
        seekable(cfg, pcm),
    ensures
        storable(layout_of(cfg, pcm)),
        encoded_file(cfg, pcm) is Ok,
        layout_of(cfg, pcm).total_frames == frame_count(
            channel_len(pcm),
            cfg.blocks_per_frame as nat,
        ),
        layout_of(cfg, pcm).seek_table.len() == frame_count(
            channel_len(pcm),
            cfg.blocks_per_frame as nat,
        ),
{
    lemma_layout_fields(cfg, pcm);
    lemma_frame_count(channel_len(pcm), cfg.blocks_per_frame as nat);
}

/// The number of blocks that the file gives for frame `i` is the number
/// that was encoded.
proof fn lemma_blocks(cfg: EncoderConfig, pcm: Seq<Seq<i32>>, i: nat)
    requires
        encodable(cfg, pcm),
        seekable(cfg, pcm),
        i < frame_count(channel_len(pcm), cfg.blocks_per_frame as nat),
    ensures
        ({
            let bpf = cfg.blocks_per_frame as nat;
            let f = frame_chunk(pcm, bpf, i);
            &&& 0 <= i * bpf <= frame_end(channel_len(pcm), bpf, i) <= channel_len(pcm)
            &&& frame_error(f, cfg.bits_per_sample) is None
            &&& f.len() == pcm.len()
            &&& channel_len(f) == frame_end(channel_len(pcm), bpf, i) - i * bpf
            &&& channel_len(f) <= MAX_FRAME_BLOCKS
            &&& blocks_of_frame(file_info(cfg, pcm), i as u32) == Ok::<u32, Error>(
                channel_len(f) as u32,
            )
        }),
{
    let n = channel_len(pcm);
    let bpf = cfg.blocks_per_frame as nat;
    let t = frame_count(n, bpf);
    lemma_frame_count(n, bpf);
    lemma_layout_storable(cfg, pcm);
    lemma_layout_fields(cfg, pcm);
    assert((i + 1) * bpf == i * bpf + bpf) by (nonlinear_arith);
    assert(i * bpf >= 0) by (nonlinear_arith);
    assert(i * bpf <= (t - 1) * bpf) by (nonlinear_arith)
        requires
            i <= t - 1,
    ;
    if i + 1 < t {
        assert((i + 1) * bpf <= (t - 1) * bpf) by (nonlinear_arith)
            requires
                i + 1 <= t - 1,
        ;
    } else {
        assert(t * bpf == (i + 1) * bpf) by (nonlinear_arith)
            requires
                t == i + 1,
        ;
        assert((t - 1) * bpf == i * bpf) by (nonlinear_arith)
            requires
                t == i + 1,
        ;
    }
    lemma_chunk_valid(pcm, cfg.bits_per_sample, (i * bpf) as int, frame_end(n, bpf, i));
}

/// Frame `i` of an encoded file decodes to its samples.
proof fn lemma_file_frame(cfg: EncoderConfig, pcm: Seq<Seq<i32>>, i: nat)
    requires
        encodable(cfg, pcm),
        seekable(cfg, pcm),
        i < frame_count(channel_len(pcm), cfg.blocks_per_frame as nat),
    ensures
        ({
            let f = frame_chunk(pcm, cfg.blocks_per_frame as nat, i);
            pcm_of_frame(encoded_file(cfg, pcm)->Ok_0, file_info(cfg, pcm), i as u32) == Ok::<
                Seq<u8>,
                Error,
            >(interleaved(f, cfg.bits_per_sample, channel_len(f)))
        }),
{
    let n = channel_len(pcm);
    let bpf = cfg.blocks_per_frame as nat;
    let level = cfg.compression_level;
    let bits = cfg.bits_per_sample;
    let t = frame_count(n, bpf);
    let l = layout_of(cfg, pcm);
    let file = encoded_file(cfg, pcm)->Ok_0;
    let m = file_info(cfg, pcm);
    let f = frame_chunk(pcm, bpf, i);
    let at = stream_bytes(pcm, level, bits, bpf, i).len();
    let audio = l.frame_data;
    lemma_layout_storable(cfg, pcm);
    lemma_layout_fields(cfg, pcm);
    lemma_blocks(cfg, pcm, i);
    lemma_stored_frame(pcm, level, bits, bpf, i, t);
    lemma_file_range(cfg, pcm, i);
    lemma_file_region(cfg, pcm);
    law_frame_round_trip(f, level, bits, audio, at);
    lemma_residuals_of(file, m, i as u32, audio, at, channel_len(f) as u32);
    lemma_pcm_of(file, m, i as u32, f);
}

/// The frames of an encoded file.
#[verifier::rlimit(40)]
proof fn lemma_file_region(cfg: EncoderConfig, pcm: Seq<Seq<i32>>)
    requires
        encodable(cfg, pcm),
        seekable(cfg, pcm),
    ensures
        region_of(encoded_file(cfg, pcm)->Ok_0, file_info(cfg, pcm)) == Ok::<Seq<u8>, Error>(
            layout_of(cfg, pcm).frame_data,
        ),
{
    lemma_layout_storable(cfg, pcm);
    lemma_layout_fields(cfg, pcm);
    lemma_layout_parts(layout_of(cfg, pcm), encoded_file(cfg, pcm)->Ok_0, cfg.trailing_tag@);
}

/// The residual arrays of a frame, its place and size being known.
proof fn lemma_residuals_of(
    data: Seq<u8>,
    m: FileModel,
    index: u32,
    audio: Seq<u8>,
    at: nat,
    blocks: u32,
)
    requires
        range_of_frame(m, index) is Ok,
        range_of_frame(m, index)->Ok_0.0 == m.audio_data_offset + at,
        region_of(data, m) == Ok::<Seq<u8>, Error>(audio),
        blocks_of_frame(m, index) == Ok::<u32, Error>(blocks),
    ensures
        residuals_of(data, m, index) == frame_at(audio, at, m.version, m.channels, blocks),
{
}

/// The bytes of a frame, its samples being known.
proof fn lemma_pcm_of(data: Seq<u8>, m: FileModel, index: u32, pcm: Seq<Seq<i32>>)
    requires
        residuals_of(data, m, index) is Ok,
        frame_samples(
            residuals_of(data, m, index)->Ok_0,
            m.version,
            m.compression_level,
            m.channels,
        ) == Ok::<Seq<Seq<i32>>, Error>(pcm),
        same_lengths(pcm),
        is_depth(m.bits_per_sample),
        residuals_of(data, m, index)->Ok_0.prologue.crc31 == stored_crc(
            interleaved(pcm, m.bits_per_sample, channel_len(pcm)),
        ),
    ensures
        pcm_of_frame(data, m, index) == Ok::<Seq<u8>, Error>(
            interleaved(pcm, m.bits_per_sample, channel_len(pcm)),
        ),
{
}

/// The seek table points at the frames.
proof fn lemma_file_range(cfg: EncoderConfig, pcm: Seq<Seq<i32>>, i: nat)
    requires
        encodable(cfg, pcm),
        seekable(cfg, pcm),
        i < frame_count(channel_len(pcm), cfg.blocks_per_frame as nat),
    ensures
        ({
            let at = stream_bytes(
                pcm,
                cfg.compression_level,
                cfg.bits_per_sample,
                cfg.blocks_per_frame as nat,
                i,
            ).len();
            let r = range_of_frame(file_info(cfg, pcm), i as u32);
            &&& r is Ok
            &&& r->Ok_0.0 == layout_of(cfg, pcm).audio_start() + at
        }),
{
    let bpf = cfg.blocks_per_frame as nat;
    let level = cfg.compression_level;
    let bits = cfg.bits_per_sample;
    let t = frame_count(channel_len(pcm), bpf);
    let l = layout_of(cfg, pcm);
    let m = file_info(cfg, pcm);
    let all = stream_bytes(pcm, level, bits, bpf, t);
    lemma_layout_storable(cfg, pcm);
    lemma_layout_fields(cfg, pcm);
    lemma_stream_slice(pcm, level, bits, bpf, i, t);
    let at = stream_bytes(pcm, level, bits, bpf, i).len();
    lemma_layout_seek(cfg, pcm, i as int);
    assert(m.audio_data_len == padded_len(all.len()));
    assert(m.audio_data_len >= all.len());
    assert(audio_end(m) == l.audio_start() + m.audio_data_len);
    if i + 1 < t {
        lemma_stream_slice(pcm, level, bits, bpf, i + 1, t);
        lemma_layout_seek(cfg, pcm, i as int + 1);
    }
}

/// The first `k` frames of an encoded file decode to the samples in them.
proof fn lemma_file_frames(cfg: EncoderConfig, pcm: Seq<Seq<i32>>, k: nat)
    requires
        encodable(cfg, pcm),
        seekable(cfg, pcm),
        k <= frame_count(channel_len(pcm), cfg.blocks_per_frame as nat),
    ensures
        pcm_of_frames(encoded_file(cfg, pcm)->Ok_0, file_info(cfg, pcm), k) == Ok::<
            Seq<u8>,
            Error,
        >(
            interleaved(
                pcm,
                cfg.bits_per_sample,
                if k == 0 {
                    0
                } else {
                    frame_end(
                        channel_len(pcm),
                        cfg.blocks_per_frame as nat,
                        (k - 1) as nat,
                    ) as nat
                },
            ),
        ),
    decreases k,
{
    let n = channel_len(pcm);
    let bpf = cfg.blocks_per_frame as nat;
    let bits = cfg.bits_per_sample;
    if k > 0 {
        let i = (k - 1) as nat;
        lemma_file_frames(cfg, pcm, i);
        lemma_file_frame(cfg, pcm, i);
        lemma_blocks(cfg, pcm, i);
        lemma_layout_storable(cfg, pcm);
        let from = i * bpf;
        let to = frame_end(n, bpf, i) as nat;
        if i > 0 {
            assert((i - 1 + 1) * bpf == i * bpf);
            assert(frame_end(n, bpf, (i - 1) as nat) == from);
        } else {
            assert(0 * bpf == 0) by (nonlinear_arith);
        }
        lemma_interleaved_split(pcm, bits, from, to, (to - from) as nat);
        assert(frame_chunk(pcm, bpf, i) == chunk(pcm, from as int, to as int));
    }
}

/// Decoding an encoded file gives back exactly the samples that were
/// encoded, as interleaved bytes, whatever the level, the bit depth, the
/// number of channels and the frame size; the header tells how they were
/// encoded; and no frame fails its checksum. It holds for files that
/// 32-bit seek entries can address.
pub proof fn law_file_round_trip(cfg: EncoderConfig, pcm: Seq<Seq<i32>>)
    requires
        encoded_pcm(cfg, pcm) is Ok,
        seekable(cfg, pcm),
    ensures
        ({
            let file = encoded_pcm(cfg, pcm)->Ok_0;
            let info = file_info(cfg, pcm);
            &&& parsed(file) == Ok::<FileModel, Error>(info)
            &&& info.compression_level == cfg.compression_level
            &&& info.channels == cfg.channels
            &&& info.sample_rate == cfg.sample_rate
            &&& info.bits_per_sample == cfg.bits_per_sample
            &&& info.blocks_per_frame == cfg.blocks_per_frame
            &&& cfg.wav_header is Some ==> info.wav_header == cfg.wav_header->Some_0@
            &&& pcm_of_frames(file, info, info.total_frames as nat) == Ok::<Seq<u8>, Error>(
                interleaved(pcm, cfg.bits_per_sample, channel_len(pcm)),
            )
        }),
{
    let n = channel_len(pcm);
    let bpf = cfg.blocks_per_frame as nat;
    let t = frame_count(n, bpf);
    lemma_layout_storable(cfg, pcm);
    lemma_layout_fields(cfg, pcm);
    law_layout_round_trip(layout_of(cfg, pcm), cfg.trailing_tag@);
    lemma_frame_count(n, bpf);
    lemma_file_frames(cfg, pcm, t);
    lemma_blocks(cfg, pcm, (t - 1) as nat);
    assert((t - 1 + 1) * bpf == t * bpf);
    assert(frame_end(n, bpf, (t - 1) as nat) == n);
}

/// The parts of a WAV file, put together again, are the file.
proof fn lemma_wav_parts(wav: Seq<u8>, pos: int, format: Option<WavFormat>)
    requires
        0 <= pos,
        wav_walk(wav, pos, format) is Ok,
    ensures
        ({
            let m = wav_walk(wav, pos, format)->Ok_0;
            m.header + m.pcm + m.terminating == wav
        }),
    decreases wav.len() - pos,
{
    let id = tag_at(wav, pos);
    let len = le32_at(wav, pos + 4);
    let body = pos + 8;
    let m = wav_walk(wav, pos, format)->Ok_0;
    if id == seq![100u8, 97, 116, 97] {
        let f = format->Some_0;
        let align = f.channels as nat * (f.bits_per_sample / 8) as nat;
        let there: nat = if len <= wav.len() - body {
            len
        } else {
            (wav.len() - body) as nat
        };
        assert(align > 0);
        lemma_mod_bound(there as int, align as int);
        lemma_mod_decreases(there, align);
        assert(m.header + m.pcm + m.terminating =~= wav);
    } else {
        let next = body + len + len % 2;
        let seen = if id == seq![102u8, 109, 116, 32] {
            Some(format_at(wav, body))
        } else {
            format
        };
        lemma_wav_parts(wav, next, seen);
    }
}

/// The second half of two parts put together.
proof fn lemma_second_half(pre: Seq<u8>, post: Seq<u8>)
    ensures
        (pre + post).skip(pre.len() as int) == post,
{
    assert((pre + post).skip(pre.len() as int) =~= post);
}

/// What follows the frames of a layout.
#[verifier::rlimit(40)]
proof fn lemma_layout_tail(m: LayoutModel, tail: Seq<u8>)
    requires
        storable(m),
    ensures
        (m.file() + tail).skip((m.audio_start() + m.frame_data.len()) as int)
            == m.terminating_data + tail,
{
    let a = m.descriptor() + m.header() + table_bytes(m.seek_table) + m.wav_header;
    let lead = a + m.frame_data;
    lemma_layout_parts(m, m.file() + tail, tail);
    lemma_second_half(lead, m.terminating_data + tail);
    assert(m.file() + tail =~= lead + (m.terminating_data + tail));
}

/// What follows the frames of an encoded file.
proof fn lemma_file_tail(cfg: EncoderConfig, pcm: Seq<Seq<i32>>)
    requires
        encodable(cfg, pcm),
        seekable(cfg, pcm),
    ensures
        encoded_file(cfg, pcm)->Ok_0.skip(audio_end(file_info(cfg, pcm)) as int)
            == cfg.terminating_data@ + cfg.trailing_tag@,
{
    lemma_layout_storable(cfg, pcm);
    lemma_layout_fields(cfg, pcm);
    lemma_layout_tail(layout_of(cfg, pcm), cfg.trailing_tag@);
}

/// An encoded WAV file decodes to exactly the bytes of the WAV file: the
/// stored header, the samples, and what follows the frames.
pub proof fn law_wav_round_trip(wav: Seq<u8>, level: CompressionLevel, cfg: EncoderConfig)
    requires
        wav_split(wav) is Ok,
        is_wav_config(cfg, wav_split(wav)->Ok_0, level),
        config_error(cfg) is None,
        deinterleaved(
            wav_split(wav)->Ok_0.pcm,
            cfg.bits_per_sample,
            cfg.channels,
        ) is Ok,
        ({
            let m = wav_split(wav)->Ok_0;
            let pcm = deinterleaved(m.pcm, cfg.bits_per_sample, cfg.channels)->Ok_0;
            encoded_file(cfg, pcm) is Ok && seekable(cfg, pcm)
        }),
    ensures
        ({
            let m = wav_split(wav)->Ok_0;
            let pcm = deinterleaved(m.pcm, cfg.bits_per_sample, cfg.channels)->Ok_0;
            let file = encoded_file(cfg, pcm)->Ok_0;
            let info = file_info(cfg, pcm);
            &&& parsed(file) == Ok::<FileModel, Error>(info)
            &&& info.wav_header == m.header
            &&& pcm_of_frames(file, info, info.total_frames as nat) == Ok::<Seq<u8>, Error>(m.pcm)
            &&& file.skip(audio_end(info) as int) == m.terminating
            &&& info.terminating_data_bytes == m.terminating.len() % 0x1_0000_0000
            &&& info.wav_header + m.pcm + m.terminating == wav
        }),
{
    let m = wav_split(wav)->Ok_0;
    let pcm = deinterleaved(m.pcm, cfg.bits_per_sample, cfg.channels)->Ok_0;
    law_interleave_deinterleaved(m.pcm, cfg.bits_per_sample, cfg.channels);
    lemma_fit_is_depth(pcm, cfg.bits_per_sample);
    lemma_layout_fields(cfg, pcm);
    law_file_round_trip(cfg, pcm);
    lemma_file_tail(cfg, pcm);
    assert(cfg.terminating_data@ + cfg.trailing_tag@ =~= m.terminating);
    lemma_wav_parts(wav, 12, None);
}

/// Pushing samples in two pieces is pushing them at once.
pub proof fn law_pushing_in_pieces(
    before: Seq<Seq<i32>>,
    first: Seq<Seq<i32>>,
    second: Seq<Seq<i32>>,
)
    requires
        before.len() == first.len(),
        before.len() == second.len(),
    ensures
        appended(appended(before, first), second) == appended(before, appended(first, second)),
{
    let a = appended(appended(before, first), second);
    let b = appended(before, appended(first, second));
    assert forall|c: int| 0 <= c < before.len() implies #[trigger] a[c] == b[c] by {
        assert(a[c] =~= b[c]);
    }
    assert(a =~= b);
}

/// Two configurations that say the same.
pub open spec fn alike(a: EncoderConfig, b: EncoderConfig) -> bool {
    &&& a.compression_level == b.compression_level
    &&& a.channels == b.channels
    &&& a.sample_rate == b.sample_rate
    &&& a.bits_per_sample == b.bits_per_sample
    &&& a.blocks_per_frame == b.blocks_per_frame
    &&& a.wav_header is Some <==> b.wav_header is Some
    &&& a.wav_header is Some ==> a.wav_header->Some_0@ == b.wav_header->Some_0@
    &&& a.terminating_data@ == b.terminating_data@
    &&& a.trailing_tag@ == b.trailing_tag@
}

/// One call that hands samples to an encoder.
pub ghost enum Push {
    /// [`crate::encoder::ApeEncoder::push_samples`].
    Samples(Seq<Seq<i32>>),
    /// [`crate::encoder::ApeEncoder::push_interleaved_bytes`].
    Bytes(Seq<u8>),
}

impl Push {
    /// The encoder accepts it.
    pub open spec fn accepted(self, cfg: EncoderConfig) -> bool {
        match self {
            Push::Samples(channels) => push_error(cfg, channels) is None,
            Push::Bytes(bytes) => deinterleaved(
                bytes,
                cfg.bits_per_sample,
                cfg.channels,
            ) is Ok,
        }
    }

    /// The samples that it hands over.
    pub open spec fn samples(self, cfg: EncoderConfig) -> Seq<Seq<i32>> {
        match self {
            Push::Samples(channels) => channels,
            Push::Bytes(bytes) => deinterleaved(
                bytes,
                cfg.bits_per_sample,
                cfg.channels,
            )->Ok_0,
        }
    }
}

/// The encoder accepts all of them.
pub open spec fn all_accepted(pushes: Seq<Push>, cfg: EncoderConfig) -> bool {
    forall|k: int| 0 <= k < pushes.len() ==> (#[trigger] pushes[k]).accepted(cfg)
}

/// What a new encoder holds after the pushes.
pub open spec fn after_pushes(pushes: Seq<Push>, cfg: EncoderConfig) -> Seq<Seq<i32>>
    decreases pushes.len(),
{
    if pushes.len() == 0 {
        no_samples(cfg.channels as nat)
    } else {
        appended(after_pushes(pushes.drop_last(), cfg), pushes.last().samples(cfg))
    }
}

/// The samples of channel `c`, from all pushes end to end.
pub open spec fn channel_pushed(pushes: Seq<Push>, cfg: EncoderConfig, c: int) -> Seq<i32>
    decreases pushes.len(),
{
    if pushes.len() == 0 {
        Seq::empty()
    } else {
        channel_pushed(pushes.drop_last(), cfg, c) + pushes.last().samples(cfg)[c]
    }
}

/// Accepted bytes hold valid samples.
proof fn lemma_accepted_valid(push: Push, cfg: EncoderConfig)
    requires
        config_error(cfg) is None,
        push.accepted(cfg),
    ensures
        push_error(cfg, push.samples(cfg)) is None,
{
    match push {
        Push::Samples(_) => {},
        Push::Bytes(bytes) => {
            law_interleave_deinterleaved(bytes, cfg.bits_per_sample, cfg.channels);
            lemma_fit_is_depth(push.samples(cfg), cfg.bits_per_sample);
        },
    }
}

/// After accepted pushes an encoder holds valid samples, channel by
/// channel those of all pushes.
proof fn lemma_after_pushes(pushes: Seq<Push>, cfg: EncoderConfig)
    requires
        config_error(cfg) is None,
        all_accepted(pushes, cfg),
    ensures
        push_error(cfg, after_pushes(pushes, cfg)) is None,
        forall|c: int|
            0 <= c < cfg.channels ==> #[trigger] after_pushes(pushes, cfg)[c] == channel_pushed(
                pushes,
                cfg,
                c,
            ),
    decreases pushes.len(),
{
    if pushes.len() > 0 {
        let head = pushes.drop_last();
        assert forall|k: int| 0 <= k < head.len() implies (#[trigger] head[k]).accepted(cfg) by {
            assert(head[k] == pushes[k]);
        }
        lemma_after_pushes(head, cfg);
        let more = pushes.last().samples(cfg);
        assert(pushes[pushes.len() - 1].accepted(cfg));
        lemma_accepted_valid(pushes.last(), cfg);
        let before = after_pushes(head, cfg);
        let all = after_pushes(pushes, cfg);
        let n = channel_len(before) + channel_len(more);
        assert forall|c: int| 0 <= c < all.len() implies (#[trigger] all[c]).len() == n by {
            assert(before[c].len() == channel_len(before));
            assert(more[c].len() == channel_len(more));
        }
        assert(same_lengths(all));
        assert forall|c: int, i: int| 0 <= c < all.len() && 0 <= i < all[c].len() implies in_depth(
            #[trigger] all[c][i],
            cfg.bits_per_sample,
        ) by {
            if i < before[c].len() {
                assert(all[c][i] == before[c][i]);
            } else {
                assert(all[c][i] == more[c][i - before[c].len()]);
            }
        }
    }
}

/// Configurations that say the same make the same file.
proof fn lemma_alike_files(a: EncoderConfig, b: EncoderConfig, pcm: Seq<Seq<i32>>)
    requires
        alike(a, b),
    ensures
        encoded_file(a, pcm) == encoded_file(b, pcm),
        config_error(a) == config_error(b),
        push_error(a, pcm) == push_error(b, pcm),
{
    reveal(layout_of);
}

/// The output does not depend on the chunking. Two new encoders with the
/// same configuration that took the same samples of every channel, in
/// pushes of any kind and size, finish with the same result: that of
/// encoding the samples at once.
pub proof fn law_chunking_does_not_matter(
    cfg1: EncoderConfig,
    cfg2: EncoderConfig,
    pushes1: Seq<Push>,
    pushes2: Seq<Push>,
)
    requires
        alike(cfg1, cfg2),
        config_error(cfg1) is None,
        all_accepted(pushes1, cfg1),
        all_accepted(pushes2, cfg2),
        forall|c: int|
            0 <= c < cfg1.channels ==> #[trigger] channel_pushed(pushes1, cfg1, c)
                == channel_pushed(pushes2, cfg2, c),
    ensures
        after_pushes(pushes1, cfg1) == after_pushes(pushes2, cfg2),
        encoded_file(cfg1, after_pushes(pushes1, cfg1)) == encoded_file(
            cfg2,
            after_pushes(pushes2, cfg2),
        ),
        encoded_file(cfg1, after_pushes(pushes1, cfg1)) == encoded_pcm(
            cfg1,
            after_pushes(pushes1, cfg1),
        ),
        forall|c: int|
            0 <= c < cfg1.channels ==> #[trigger] after_pushes(pushes1, cfg1)[c]
                == channel_pushed(pushes1, cfg1, c),
{
    let a = after_pushes(pushes1, cfg1);
    let b = after_pushes(pushes2, cfg2);
    lemma_alike_files(cfg1, cfg2, a);
    lemma_after_pushes(pushes1, cfg1);
    lemma_after_pushes(pushes2, cfg2);
    assert forall|c: int| 0 <= c < cfg1.channels implies a[c] == b[c] by {
        assert(a[c] == channel_pushed(pushes1, cfg1, c));
        assert(b[c] == channel_pushed(pushes2, cfg2, c));
    }
    assert(a =~= b);
}

// ---------------------------------------------------------------------
// Junk before a file
// ---------------------------------------------------------------------

/// A parsed file that stands `n` bytes further into the buffer.
pub open spec fn moved(r: Result<FileModel>, n: nat) -> Result<FileModel> {
    match r {
        Err(e) => Err(e),
        Ok(m) => Ok(
            FileModel {
                junk_bytes: m.junk_bytes + n,
                audio_data_offset: m.audio_data_offset + n,
                data_len: m.data_len + n,
                ..m
            },
        ),
    }
}

proof fn lemma_le16_moved(junk: Seq<u8>, b: Seq<u8>, at: int)
    requires
        0 <= at,
        at + 2 <= b.len(),
    ensures
        le16_at(junk + b, junk.len() + at) == le16_at(b, at),
{
    assert((junk + b)[junk.len() + at] == b[at]);
    assert((junk + b)[junk.len() + at + 1] == b[at + 1]);
}

proof fn lemma_le32_moved(junk: Seq<u8>, b: Seq<u8>, at: int)
    requires
        0 <= at,
        at + 4 <= b.len(),
    ensures
        le32_at(junk + b, junk.len() + at) == le32_at(b, at),
{
    lemma_le16_moved(junk, b, at);
    lemma_le16_moved(junk, b, at + 2);
}

proof fn lemma_part_moved(junk: Seq<u8>, b: Seq<u8>, from: int, to: int)
    requires
        0 <= from <= to <= b.len(),
    ensures
        (junk + b).subrange(junk.len() + from, junk.len() + to) == b.subrange(from, to),
{
    assert((junk + b).subrange(junk.len() + from, junk.len() + to) =~= b.subrange(from, to));
}

proof fn lemma_table_moved(junk: Seq<u8>, b: Seq<u8>, at: int, n: nat)
    requires
        0 <= at,
        at + 4 * n <= b.len(),
    ensures
        table_at(junk + b, junk.len() + at, n) == table_at(b, at, n),
{
    let x = table_at(junk + b, junk.len() + at, n);
    let y = table_at(b, at, n);
    assert forall|k: int| 0 <= k < n implies x[k] == y[k] by {
        lemma_le32_moved(junk, b, at + 4 * k);
    }
    assert(x =~= y);
}

proof fn lemma_descriptor_moved(junk: Seq<u8>, b: Seq<u8>)
    requires
        52 <= b.len(),
    ensures
        descriptor_at(junk + b, junk.len() as int) == descriptor_at(b, 0),
{
    lemma_le32_moved(junk, b, 8);
    lemma_le32_moved(junk, b, 12);
    lemma_le32_moved(junk, b, 16);
    lemma_le32_moved(junk, b, 20);
    lemma_le32_moved(junk, b, 24);
    lemma_le32_moved(junk, b, 28);
    lemma_le32_moved(junk, b, 32);
    lemma_part_moved(junk, b, 36, 52);
}

proof fn lemma_new_era_moved(junk: Seq<u8>, b: Seq<u8>)
    requires
        6 <= b.len(),
    ensures
        parsed_new_era(junk + b, junk.len() as int) == moved(parsed_new_era(b, 0), junk.len()),
{
    let d = descriptor_at(b, 0);
    let h = d.descriptor_bytes as int;
    let seek = h + d.header_bytes;
    let wav = seek + d.seek_table_bytes;
    let audio = wav + d.header_data_bytes;
    lemma_le16_moved(junk, b, 4);
    if 12 <= b.len() {
        lemma_le32_moved(junk, b, 8);
    }
    if 52 <= b.len() {
        lemma_descriptor_moved(junk, b);
        if h + 2 <= b.len() {
            lemma_le16_moved(junk, b, h);
        }
        if d.header_bytes >= 24 && audio <= b.len() {
            lemma_le16_moved(junk, b, h + 2);
            lemma_le32_moved(junk, b, h + 4);
            lemma_le32_moved(junk, b, h + 8);
            lemma_le32_moved(junk, b, h + 12);
            lemma_le16_moved(junk, b, h + 16);
            lemma_le16_moved(junk, b, h + 18);
            lemma_le32_moved(junk, b, h + 20);
            lemma_table_moved(junk, b, seek, (d.seek_table_bytes / 4) as nat);
            lemma_part_moved(junk, b, wav, audio);
        }
    }
}

/// The positions behind a flat header move with it.
proof fn lemma_old_positions_moved(junk: Seq<u8>, b: Seq<u8>)
    requires
        32 <= b.len(),
        old_count_end(b, 0) <= b.len(),
    ensures
        old_elements(junk + b, junk.len() as int) == old_elements(b, 0),
        old_wav_end(junk + b, junk.len() as int) == junk.len() + old_wav_end(b, 0),
        old_seek_end(junk + b, junk.len() as int) == junk.len() + old_seek_end(b, 0),
        old_bits_end(junk + b, junk.len() as int) == junk.len() + old_bits_end(b, 0),
{
    lemma_le16_moved(junk, b, 4);
    lemma_le16_moved(junk, b, 8);
    lemma_le32_moved(junk, b, 16);
    lemma_le32_moved(junk, b, 24);
    if old_flags(b, 0).carries(16) {
        lemma_le32_moved(junk, b, old_peak_end(b, 0));
    }
}

proof fn lemma_old_era_moved(junk: Seq<u8>, b: Seq<u8>)
    requires
        6 <= b.len(),
    ensures
        parsed_old_era(junk + b, junk.len() as int) == moved(parsed_old_era(b, 0), junk.len()),
{
    lemma_le16_moved(junk, b, 4);
    if 8 <= b.len() {
        lemma_le16_moved(junk, b, 6);
    }
    if 32 <= b.len() {
        lemma_le16_moved(junk, b, 8);
        lemma_le16_moved(junk, b, 10);
        lemma_le32_moved(junk, b, 12);
        lemma_le32_moved(junk, b, 20);
        lemma_le32_moved(junk, b, 24);
        lemma_le32_moved(junk, b, 28);
        if old_count_end(b, 0) <= b.len() {
            lemma_old_positions_moved(junk, b);
            if old_flags(b, 0).carries(4) {
                lemma_le32_moved(junk, b, 32);
            }
            if old_bits_end(b, 0) <= b.len() {
                lemma_table_moved(junk, b, old_wav_end(b, 0), old_elements(b, 0));
                lemma_part_moved(junk, b, old_seek_end(b, 0), old_bits_end(b, 0));
                lemma_part_moved(junk, b, old_count_end(b, 0), old_wav_end(b, 0));
            }
        }
    }
}

/// Junk in front of a file is skipped and recorded. Parsed at its end, the
/// file fails with the same error as without it, or gives the same
/// information, with the junk, the start of the frames and the length of
/// the buffer larger by the junk. Where the magic does not occur earlier,
/// that is also what is found without knowing the length of the junk.
pub proof fn law_junk_is_skipped(junk: Seq<u8>, b: Seq<u8>)
    ensures
        parsed_at(junk + b, junk.len() as int) == moved(parsed_at(b, 0), junk.len()),
        first_magic(junk + b, junk.len() as int) ==> parsed(junk + b) == moved(
            parsed(b),
            junk.len(),
        ),
{
    let all = junk + b;
    let n = junk.len() as int;
    if 4 <= b.len() {
        lemma_part_moved(junk, b, 0, 4);
    }
    if 6 <= b.len() {
        lemma_le16_moved(junk, b, 4);
        lemma_new_era_moved(junk, b);
        lemma_old_era_moved(junk, b);
    }
    if first_magic(all, n) {
        assert(magic_at(b, 0));
        assert(first_magic(b, 0));
        lemma_first_magic_unique(all, n, choose|p: int| first_magic(all, p));
        lemma_first_magic_unique(b, 0, choose|p: int| first_magic(b, p));
    }
}

// ---------------------------------------------------------------------
// What an encoded file says of itself
// ---------------------------------------------------------------------

/// An encoded file says of itself what it should: version 3990, no flags,
/// as many frames as the samples fill, the last one with what is left, one
/// seek entry per frame, the first one at the start of the frames, and the
/// given WAV header or one made up for the samples. It ends with the bytes
/// to append.
pub proof fn law_encoded_file_fields(cfg: EncoderConfig, pcm: Seq<Seq<i32>>)
    requires
        encoded_pcm(cfg, pcm) is Ok,
        seekable(cfg, pcm),
    ensures
        parsed(encoded_pcm(cfg, pcm)->Ok_0) is Ok,
        ({
            let file = encoded_pcm(cfg, pcm)->Ok_0;
            let info = parsed(file)->Ok_0;
            let n = channel_len(pcm);
            let len = n * (cfg.channels * (cfg.bits_per_sample / 8)) as nat;
            &&& info.junk_bytes == 0
            &&& info.version == 3990
            &&& info.format_flags.0 == 0
            &&& info.peak_level is None
            &&& info.seek_bit_table is None
            &&& (info.total_frames - 1) * cfg.blocks_per_frame + info.final_frame_blocks == n
            &&& n > 0 ==> 1 <= info.final_frame_blocks <= cfg.blocks_per_frame
            &&& n == 0 ==> info.total_frames == 1
            &&& info.seek_table.len() == info.total_frames
            &&& info.seek_table[0] == info.audio_data_offset
            &&& cfg.wav_header is None && len <= u32::MAX ==> info.wav_header == wav_header_for(
                cfg.channels,
                cfg.sample_rate,
                cfg.bits_per_sample,
                len as u32,
            )
            &&& cfg.wav_header is Some ==> info.wav_header == cfg.wav_header->Some_0@
            &&& file.skip(audio_end(info) as int) == cfg.terminating_data@ + cfg.trailing_tag@
        }),
{
    let n = channel_len(pcm);
    let bpf = cfg.blocks_per_frame as nat;
    let t = frame_count(n, bpf);
    let l = layout_of(cfg, pcm);
    law_file_round_trip(cfg, pcm);
    lemma_layout_storable(cfg, pcm);
    lemma_layout_fields(cfg, pcm);
    lemma_frame_count(n, bpf);
    lemma_file_tail(cfg, pcm);
    lemma_layout_seek(cfg, pcm, 0);
    lemma_last_frame(n, bpf);
    assert(l.format_flags == 0) by {
        reveal(layout_of);
    }
    assert(l.audio_start() + stream_bytes(
        pcm,
        cfg.compression_level,
        cfg.bits_per_sample,
        bpf,
        0,
    ).len() == l.audio_start());
}

/// What the last frame holds.
proof fn lemma_last_frame(n: nat, bpf: nat)
    requires
        bpf > 0,
    ensures
        0 <= n - (frame_count(n, bpf) - 1) * bpf <= bpf,
        n > 0 ==> n - (frame_count(n, bpf) - 1) * bpf >= 1,
        n == 0 ==> frame_count(n, bpf) == 1,
{
    lemma_frame_count(n, bpf);
    let k = n / bpf;
    lemma_mod_bound(n as int, bpf as int);
    assert((k - 1) * bpf == k * bpf - bpf) by (nonlinear_arith);
    if n > 0 && n % bpf == 0 {
        assert(k * bpf == n);
    }
    if n == 0 {
        vstd::arithmetic::div_mod::lemma_basic_div(0, bpf as int);
        assert(n % bpf == 0);
        assert(0 * bpf == 0) by (nonlinear_arith);
    }
}

/// Frame `i` of an encoded file holds the samples from `i` times the frame
/// length on, as many as a frame has or as are left.
pub proof fn law_frame_of_a_file(cfg: EncoderConfig, pcm: Seq<Seq<i32>>, i: nat, end: int)
    requires
        encoded_pcm(cfg, pcm) is Ok,
        seekable(cfg, pcm),
        i < frame_count(channel_len(pcm), cfg.blocks_per_frame as nat),
        end == if (i + 1) * cfg.blocks_per_frame <= channel_len(pcm) {
            (i + 1) * cfg.blocks_per_frame
        } else {
            channel_len(pcm) as int
        },
    ensures
        ({
            let file = encoded_pcm(cfg, pcm)->Ok_0;
            let from = i * cfg.blocks_per_frame;
            let part = Seq::new(pcm.len(), |c: int| pcm[c].subrange(from, end));
            pcm_of_frame(file, parsed(file)->Ok_0, i as u32) == Ok::<Seq<u8>, Error>(
                interleaved(part, cfg.bits_per_sample, (end - from) as nat),
            )
        }),
{
    let bpf = cfg.blocks_per_frame as nat;
    let from = i * cfg.blocks_per_frame;
    let part = Seq::new(pcm.len(), |c: int| pcm[c].subrange(from, end));
    law_file_round_trip(cfg, pcm);
    lemma_file_frame(cfg, pcm, i);
    lemma_blocks(cfg, pcm, i);
    let f = frame_chunk(pcm, bpf, i);
    assert(f =~= part);
    lemma_frame_count(channel_len(pcm), bpf);
    assert(from >= 0) by (nonlinear_arith)
        requires
            from == i * bpf,
    ;
    assert(i * bpf <= (frame_count(channel_len(pcm), bpf) - 1) * bpf) by (nonlinear_arith)
        requires
            i <= frame_count(channel_len(pcm), bpf) - 1,
    ;
    assert((i + 1) * bpf == i * bpf + bpf) by (nonlinear_arith);
    lemma_chunk_valid(pcm, cfg.bits_per_sample, from, end);
}

} // verus!
