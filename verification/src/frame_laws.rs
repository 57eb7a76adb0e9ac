//! A frame decodes to the samples it was encoded from.

use vstd::prelude::*;

use crate::bounds::{law_residuals_bounded, within};
use crate::cascade::zeros;
use crate::encoder::{
    arrays_to_code, be32_bytes, flags_of, frame_bytes, frame_encoder, frame_error, is_silent,
    lemma_coded_lengths, lemma_fit_is_depth, lemma_flag_bits, lemma_newer_pairs_fit, payload_of,
    prologue_bytes,
};
use crate::entropy::{
    path_of, read_pairs, running_start, write_pairs, PairEncoder, ResidualDecoderModel,
    ResidualEncoderModel, RunningState,
};
use crate::entropy_laws::{
    law_newer_path_holds_every_residual, law_pairs_round_trip, law_residuals_round_trip,
};
use crate::error::Error;
use crate::frame::{
    frame_at, frame_init, frame_input, payload_arrays, payload_decoder, prologue_at, stored_crc,
    FrameFlags, FrameModel, MAX_FRAME_BLOCKS,
};
use crate::header::CompressionLevel;
use crate::pcm::{
    channel_len, coded_arrays, frame_samples, interleaved, law_frame_samples_round_trip, same_lengths,
};
use crate::range_coder::{byte_at_bit, fresh_encoder, ordered_byte, BitModel};
use crate::range_laws::{lemma_aligned_byte, stream_starts_with};
use crate::writer::ENCODER_FILE_VERSION;

verus! {

/// The bytes `s` stand at byte `offset` of the bit array `audio`.
pub open spec fn stored_at(audio: Seq<u8>, offset: nat, s: Seq<u8>) -> bool {
    forall|j: int| 0 <= j < s.len() ==> #[trigger] ordered_byte(audio, true, offset + j) == s[j]
}

/// Reading byte `j` behind a byte position.
proof fn lemma_advanced(i: BitModel, n: nat)
    ensures
        i.advanced_by(n).data == i.data,
        i.advanced_by(n).le_words == i.le_words,
        i.advanced_by(n).bit_pos == i.bit_pos + 8 * n,
    decreases n,
{
    if n > 0 {
        lemma_advanced(i, (n - 1) as nat);
    }
}

proof fn lemma_frame_byte(audio: Seq<u8>, offset: nat, s: Seq<u8>, j: nat)
    requires
        stored_at(audio, offset, s),
        j < s.len(),
    ensures
        frame_input(audio, offset).advanced_by(j).next_byte() == s[j as int],
{
    lemma_advanced(frame_input(audio, offset), j);
    lemma_aligned_byte(audio, true, offset + j);
    assert(8 * offset + 8 * j == 8 * (offset + j));
    assert(ordered_byte(audio, true, offset + (j as int)) == s[j as int]);
}

/// Byte reads one after the other.
proof fn lemma_advanced_sum(i: BitModel, a: nat, b: nat)
    ensures
        i.advanced_by(a).advanced_by(b) == i.advanced_by(a + b),
    decreases b,
{
    if b > 0 {
        lemma_advanced_sum(i, a, (b - 1) as nat);
    }
}

proof fn lemma_frame_word(audio: Seq<u8>, offset: nat, s: Seq<u8>, at: nat, x: nat)
    requires
        stored_at(audio, offset, s),
        at + 4 <= s.len(),
        x < 0x1_0000_0000,
        s.subrange(at as int, at as int + 4) == be32_bytes(x),
    ensures
        frame_input(audio, offset).advanced_by(at).next_word() == x,
{
    let i = frame_input(audio, offset);
    let w = s.subrange(at as int, at as int + 4);
    let q = at as int;
    assert(w[0] == s[q] && w[1] == s[q + 1] && w[2] == s[q + 2] && w[3] == s[q + 3]);
    lemma_frame_byte(audio, offset, s, at);
    lemma_frame_byte(audio, offset, s, at + 1);
    lemma_frame_byte(audio, offset, s, at + 2);
    lemma_frame_byte(audio, offset, s, at + 3);
    lemma_advanced_sum(i, at, 1);
    lemma_advanced_sum(i, at, 2);
    lemma_advanced_sum(i, at, 3);
    let b0 = (x / 0x100_0000) % 256;
    let b1 = (x / 0x1_0000) % 256;
    let b2 = (x / 256) % 256;
    let b3 = x % 256;
    assert(x == ((b0 * 256 + b1) * 256 + b2) * 256 + b3);
}

/// The flags of a frame are small, and say what they should.
pub proof fn lemma_flags(pcm: Seq<Seq<i32>>)
    requires
        1 <= pcm.len() <= 2,
    ensures
        flags_of(pcm).0 < 8,
        flags_of(pcm).silences(pcm.len() as u16) == (is_silent(pcm[0]) && (pcm.len() == 2
            ==> is_silent(pcm[1]))),
        flags_of(pcm).carries(4) == (pcm.len() == 2 && pcm[0] == pcm[1]),
{
    lemma_flag_bits(flags_of(pcm).0);
}

/// The prologue of a frame is read back.
proof fn lemma_prologue_back(audio: Seq<u8>, offset: nat, crc31: u32, flags: FrameFlags, rest: Seq<u8>)
    requires
        crc31 < 0x8000_0000,
        stored_at(audio, offset, prologue_bytes(crc31, flags) + rest),
    ensures
        ({
            let p = prologue_at(frame_input(audio, offset));
            &&& p.crc31 == crc31
            &&& p.flag_word() == flags
            &&& p.len == prologue_bytes(crc31, flags).len()
        }),
{
    let s = prologue_bytes(crc31, flags) + rest;
    let i = frame_input(audio, offset);
    assert(i.advanced_by(0) == i);
    if flags.0 != 0 {
        let first = (crc31 + 0x8000_0000) as nat;
        assert(s.subrange(0, 4) =~= be32_bytes(first));
        assert(s.subrange(4, 8) =~= be32_bytes(flags.0 as nat));
        lemma_frame_word(audio, offset, s, 0, first);
        lemma_frame_word(audio, offset, s, 4, flags.0 as nat);
    } else {
        assert(s.subrange(0, 4) =~= be32_bytes(crc31 as nat));
        lemma_frame_word(audio, offset, s, 0, crc31 as nat);
    }
}

/// What stands behind the prologue and the pad byte is where the coder
/// starts.
proof fn lemma_payload_stream(audio: Seq<u8>, offset: nat, lead: Seq<u8>, payload: Seq<u8>)
    requires
        stored_at(audio, offset, lead + seq![0u8] + payload),
    ensures
        stream_starts_with(
            frame_input(audio, offset).advanced_by(lead.len() + 1),
            payload,
        ),
{
    let s = lead + seq![0u8] + payload;
    let i = frame_input(audio, offset);
    let k = lead.len() + 1;
    lemma_advanced(i, k);
    let p = i.advanced_by(k);
    assert forall|j: int| 0 <= j < payload.len() implies #[trigger] byte_at_bit(
        p.data,
        p.le_words,
        (p.bit_pos + 8 * j) as nat,
    ) == payload[j] by {
        let q = offset + k + j as nat;
        lemma_aligned_byte(audio, true, q);
        assert(p.bit_pos + 8 * j == 8 * q);
        assert(ordered_byte(audio, true, offset + (k + j)) == s[k + j]);
    }
}

/// No residual of a frame is `i32::MIN`.
proof fn lemma_no_minimum(pcm: Seq<Seq<i32>>, level: CompressionLevel, bits: u16)
    requires
        frame_error(pcm, bits) is None,
    ensures
        forall|k: int|
            0 <= k < arrays_to_code(pcm, level).len() ==> !(#[trigger] arrays_to_code(
                pcm,
                level,
            )[k]).contains(i32::MIN),
{
    lemma_fit_is_depth(pcm, bits);
    lemma_flags(pcm);
    let flags = flags_of(pcm);
    let arrays = arrays_to_code(pcm, level);
    let source = if pcm.len() == 2 && flags.carries(4) {
        seq![pcm[0]]
    } else {
        pcm
    };
    if !flags.silences(pcm.len() as u16) {
        assert(same_lengths(source));
        assert forall|c: int, i: int| 0 <= c < source.len() && 0 <= i < source[c].len() implies
            crate::pcm::fits_depth(#[trigger] source[c][i], bits) by {
            assert(crate::pcm::fits_depth(pcm[c][i], bits));
        }
        law_residuals_bounded(source, ENCODER_FILE_VERSION, level, bits);
        assert forall|k: int| 0 <= k < arrays.len() implies !(#[trigger] arrays[k]).contains(
            i32::MIN,
        ) by {
            let a = arrays[k];
            if a.contains(i32::MIN) {
                let j = choose|j: int| 0 <= j < a.len() && a[j] == i32::MIN;
                assert(within(arrays[k][j] as int, 0x800_0000));
            }
        }
    }
}

/// The payload of a frame decodes to its arrays.
proof fn lemma_payload_back(pcm: Seq<Seq<i32>>, level: CompressionLevel, bits: u16, i: BitModel)
    requires
        frame_error(pcm, bits) is None,
        !flags_of(pcm).silences(pcm.len() as u16),
        stream_starts_with(i, payload_of(arrays_to_code(pcm, level))),
    ensures
        ({
            let d = crate::entropy::ResidualDecoderModel {
                path: path_of(ENCODER_FILE_VERSION),
                rc: crate::range_coder::primed(i),
                state: running_start(frame_init()),
            };
            let two = pcm.len() == 2 && !flags_of(pcm).carries(4);
            let out = payload_arrays(d, two, channel_len(pcm));
            out is Ok && out->Ok_0.0 == arrays_to_code(pcm, level)
        }),
{
    let arrays = arrays_to_code(pcm, level);
    let n = channel_len(pcm);
    let e = frame_encoder();
    lemma_coded_lengths(pcm, level);
    lemma_no_minimum(pcm, level, bits);
    lemma_flags(pcm);
    let two = pcm.len() == 2 && !flags_of(pcm).carries(4);
    if two {
        crate::pcm::lemma_coded_array_lengths(pcm, ENCODER_FILE_VERSION, level);
        assert(arrays.len() == 2);
        assert(arrays[0].len() == n && arrays[1].len() == n);
        lemma_newer_pairs_fit(
            PairEncoder { rc: e.rc, s0: e.state, s1: e.state },
            arrays[0],
            arrays[1],
            n,
        );
        law_pairs_round_trip(ENCODER_FILE_VERSION, frame_init(), arrays[0], arrays[1], i);
        assert(arrays =~= seq![arrays[0], arrays[1]]);
    } else {
        let source = if pcm.len() == 2 {
            seq![pcm[0]]
        } else {
            pcm
        };
        crate::pcm::lemma_coded_array_lengths(source, ENCODER_FILE_VERSION, level);
        assert(arrays.len() == 1);
        assert(arrays[0].len() == n);
        law_newer_path_holds_every_residual(e, arrays[0]);
        law_residuals_round_trip(ENCODER_FILE_VERSION, frame_init(), arrays[0], i);
        assert(arrays =~= seq![arrays[0]]);
    }
}

/// A silent channel is all zeros.
proof fn lemma_silent_is_zeros(ch: Seq<i32>)
    requires
        is_silent(ch),
    ensures
        ch == zeros(ch.len()),
{
    assert(ch =~= zeros(ch.len()));
}

/// A frame decodes to the samples that it was encoded from, and its
/// checksum is theirs: at every level and bit depth, silent or not,
/// wherever it stands among the frames.
pub proof fn law_frame_round_trip(
    pcm: Seq<Seq<i32>>,
    level: CompressionLevel,
    bits: u16,
    audio: Seq<u8>,
    offset: nat,
)
    requires
        frame_error(pcm, bits) is None,
        channel_len(pcm) <= MAX_FRAME_BLOCKS,
        offset + 4 <= audio.len(),
        stored_at(audio, offset, frame_bytes(pcm, level, bits)),
    ensures
        ({
            let f = frame_at(
                audio,
                offset,
                ENCODER_FILE_VERSION,
                pcm.len() as u16,
                channel_len(pcm) as u32,
            );
            &&& f is Ok
            &&& f->Ok_0.prologue.crc31 == stored_crc(interleaved(pcm, bits, channel_len(pcm)))
            &&& frame_samples(f->Ok_0, ENCODER_FILE_VERSION, level, pcm.len() as u16) == Ok::<
                Seq<Seq<i32>>,
                Error,
            >(pcm)
        }),
{
    let n = channel_len(pcm);
    let crc31 = stored_crc(interleaved(pcm, bits, n));
    let lead = prologue_bytes(crc31, flags_of(pcm));
    let payload = payload_of(arrays_to_code(pcm, level));
    reveal(frame_bytes);
    assert(lead + seq![0u8] + payload =~= lead + (seq![0u8] + payload));
    lemma_prologue_back(audio, offset, crc31, flags_of(pcm), seq![0u8] + payload);
    if flags_of(pcm).silences(pcm.len() as u16) {
        lemma_silent_frame(pcm, level, audio, offset);
    } else {
        lemma_payload_stream(audio, offset, lead, payload);
        lemma_loud_frame(pcm, level, bits, audio, offset);
    }
}

/// A silent frame decodes to zeros.
proof fn lemma_silent_frame(
    pcm: Seq<Seq<i32>>,
    level: CompressionLevel,
    audio: Seq<u8>,
    offset: nat,
)
    requires
        1 <= pcm.len() <= 2,
        same_lengths(pcm),
        channel_len(pcm) <= MAX_FRAME_BLOCKS,
        offset + 4 <= audio.len(),
        prologue_at(frame_input(audio, offset)).flag_word() == flags_of(pcm),
        flags_of(pcm).silences(pcm.len() as u16),
    ensures
        ({
            let f = frame_at(
                audio,
                offset,
                ENCODER_FILE_VERSION,
                pcm.len() as u16,
                channel_len(pcm) as u32,
            );
            &&& f is Ok
            &&& f->Ok_0.prologue == prologue_at(frame_input(audio, offset))
            &&& frame_samples(f->Ok_0, ENCODER_FILE_VERSION, level, pcm.len() as u16) == Ok::<
                Seq<Seq<i32>>,
                Error,
            >(pcm)
        }),
{
    lemma_flags(pcm);
    assert(pcm.len() == 2 ==> pcm[1].len() == channel_len(pcm));
    lemma_silent_is_zeros(pcm[0]);
    if pcm.len() == 2 {
        lemma_silent_is_zeros(pcm[1]);
    }
    let f = frame_at(
        audio,
        offset,
        ENCODER_FILE_VERSION,
        pcm.len() as u16,
        channel_len(pcm) as u32,
    );
    assert(f->Ok_0.arrays =~= pcm);
}

/// A frame with a payload decodes to its samples.
proof fn lemma_loud_frame(
    pcm: Seq<Seq<i32>>,
    level: CompressionLevel,
    bits: u16,
    audio: Seq<u8>,
    offset: nat,
)
    requires
        frame_error(pcm, bits) is None,
        channel_len(pcm) <= MAX_FRAME_BLOCKS,
        offset + 4 <= audio.len(),
        prologue_at(frame_input(audio, offset)).flag_word() == flags_of(pcm),
        !flags_of(pcm).silences(pcm.len() as u16),
        stream_starts_with(
            frame_input(audio, offset).advanced_by(
                (prologue_at(frame_input(audio, offset)).len + 1) as nat,
            ),
            payload_of(arrays_to_code(pcm, level)),
        ),
    ensures
        ({
            let f = frame_at(
                audio,
                offset,
                ENCODER_FILE_VERSION,
                pcm.len() as u16,
                channel_len(pcm) as u32,
            );
            &&& f is Ok
            &&& f->Ok_0.prologue == prologue_at(frame_input(audio, offset))
            &&& frame_samples(f->Ok_0, ENCODER_FILE_VERSION, level, pcm.len() as u16) == Ok::<
                Seq<Seq<i32>>,
                Error,
            >(pcm)
        }),
{
    let flags = flags_of(pcm);
    let prologue = prologue_at(frame_input(audio, offset));
    let i = frame_input(audio, offset).advanced_by((prologue.len + 1) as nat);
    lemma_payload_back(pcm, level, bits, i);
    let two = pcm.len() == 2 && !flags.carries(4);
    let out = payload_arrays(
        payload_decoder(audio, offset, ENCODER_FILE_VERSION),
        two,
        channel_len(pcm),
    );
    let f = FrameModel {
        prologue,
        arrays: arrays_to_code(pcm, level),
        end_bit_pos: out->Ok_0.1,
        silent: false,
    };
    assert(frame_at(
        audio,
        offset,
        ENCODER_FILE_VERSION,
        pcm.len() as u16,
        channel_len(pcm) as u32,
    ) == Ok::<FrameModel, Error>(f));
    lemma_flags(pcm);
    lemma_samples_back(pcm, level, f);
}

/// The arrays of a frame give its samples back.
proof fn lemma_samples_back(pcm: Seq<Seq<i32>>, level: CompressionLevel, f: FrameModel)
    requires
        1 <= pcm.len() <= 2,
        same_lengths(pcm),
        !flags_of(pcm).silences(pcm.len() as u16),
        f.prologue.flag_word() == flags_of(pcm),
        !f.silent,
        f.arrays == arrays_to_code(pcm, level),
    ensures
        frame_samples(f, ENCODER_FILE_VERSION, level, pcm.len() as u16) == Ok::<
            Seq<Seq<i32>>,
            Error,
        >(pcm),
{
    lemma_flags(pcm);
    assert(pcm.len() == 2 ==> pcm[1].len() == channel_len(pcm));
    if pcm.len() == 2 && flags_of(pcm).carries(4) {
        law_frame_samples_round_trip(seq![pcm[0]], ENCODER_FILE_VERSION, level, f);
        assert(seq![pcm[0], pcm[0]] =~= pcm);
    } else {
        law_frame_samples_round_trip(pcm, ENCODER_FILE_VERSION, level, f);
    }
}

// ---------------------------------------------------------------------
// The bytes of a frame
// ---------------------------------------------------------------------

/// The 32-bit number at `at`, the highest byte first.
pub open spec fn word_at(s: Seq<u8>, at: int) -> int {
    ((s[at] as int * 256 + s[at + 1]) * 256 + s[at + 2]) * 256 + s[at + 3]
}

/// All samples are zero.
pub open spec fn all_zero(ch: Seq<i32>) -> bool {
    forall|i: int| 0 <= i < ch.len() ==> #[trigger] ch[i] == 0
}

/// What a frame says of its channels: 1 for a silent mono or second
/// channel, 2 for a silent first one of two, 4 for two equal ones.
pub open spec fn remarks(pcm: Seq<Seq<i32>>) -> int {
    let a: int = if all_zero(pcm.last()) {
        1
    } else {
        0
    };
    let b: int = if pcm.len() == 2 && all_zero(pcm[0]) {
        2
    } else {
        0
    };
    let c: int = if pcm.len() == 2 && pcm[0] == pcm[1] {
        4
    } else {
        0
    };
    a + b + c
}

proof fn lemma_be32(x: nat)
    requires
        x <= u32::MAX,
    ensures
        be32_bytes(x).len() == 4,
        word_at(be32_bytes(x), 0) == x,
{
}

proof fn lemma_word_in(pre: Seq<u8>, x: nat, post: Seq<u8>)
    requires
        x <= u32::MAX,
    ensures
        word_at(pre + be32_bytes(x) + post, pre.len() as int) == x,
{
    let s = pre + be32_bytes(x) + post;
    let n = pre.len() as int;
    lemma_be32(x);
    assert(s[n] == be32_bytes(x)[0] && s[n + 1] == be32_bytes(x)[1] && s[n + 2] == be32_bytes(
        x,
    )[2] && s[n + 3] == be32_bytes(x)[3]);
}

/// The bytes of a frame. First comes the CRC-32 of its samples without the
/// lowest bit. Where there is something to remark of the channels, the top
/// bit is set and the remarks follow. Then come a zero and the payload.
pub proof fn law_frame_layout(pcm: Seq<Seq<i32>>, level: CompressionLevel, bits: u16)
    requires
        frame_error(pcm, bits) is None,
    ensures
        ({
            let s = frame_bytes(pcm, level, bits);
            let crc = crate::frame::crc_of(interleaved(pcm, bits, pcm[0].len())) as int;
            let at: int = if remarks(pcm) == 0 {
                4
            } else {
                8
            };
            &&& s.len() > at
            &&& remarks(pcm) == 0 ==> word_at(s, 0) == crc / 2
            &&& remarks(pcm) != 0 ==> word_at(s, 0) == 0x8000_0000 + crc / 2 && word_at(s, 4)
                == remarks(pcm)
            &&& s[at] == 0
            &&& s.skip(at + 1) == payload_of(arrays_to_code(pcm, level))
        }),
{
    reveal(frame_bytes);
    let s = frame_bytes(pcm, level, bits);
    let crc31 = stored_crc(interleaved(pcm, bits, channel_len(pcm)));
    let f = flags_of(pcm);
    let payload = payload_of(arrays_to_code(pcm, level));
    let e = Seq::<u8>::empty();
    assert(f.0 == remarks(pcm));
    if f.0 != 0 {
        let x = be32_bytes((crc31 + 0x8000_0000) as nat);
        let y = be32_bytes(f.0 as nat);
        assert(s =~= e + x + (y + seq![0u8] + payload));
        assert(s =~= x + y + (seq![0u8] + payload));
        lemma_word_in(e, (crc31 + 0x8000_0000) as nat, y + seq![0u8] + payload);
        lemma_word_in(x, f.0 as nat, seq![0u8] + payload);
        assert(s.skip(9) =~= payload);
    } else {
        let x = be32_bytes(crc31 as nat);
        assert(s =~= e + x + (seq![0u8] + payload));
        lemma_word_in(e, crc31 as nat, seq![0u8] + payload);
        assert(s.skip(5) =~= payload);
    }
}

/// A silent frame has an empty payload: the four zeros of a flush. Two
/// equal channels that are not silent have the payload of one.
pub proof fn law_short_payloads(pcm: Seq<Seq<i32>>, level: CompressionLevel, bits: u16)
    requires
        frame_error(pcm, bits) is None,
    ensures
        (forall|c: int| 0 <= c < pcm.len() ==> all_zero(#[trigger] pcm[c])) ==> frame_bytes(
            pcm,
            level,
            bits,
        ).skip(9) == seq![0u8, 0, 0, 0],
        pcm.len() == 2 && pcm[0] == pcm[1] && !all_zero(pcm[0]) ==> frame_bytes(
            pcm,
            level,
            bits,
        ).skip(9) == frame_bytes(seq![pcm[0]], level, bits).skip(5),
{
    law_frame_layout(pcm, level, bits);
    lemma_flags(pcm);
    if forall|c: int| 0 <= c < pcm.len() ==> all_zero(#[trigger] pcm[c]) {
        assert(all_zero(pcm[0]));
        assert(all_zero(pcm.last()));
        assert(frame_encoder().rc.flushed() =~= seq![0u8, 0, 0, 0]);
    } else if pcm.len() == 2 && pcm[0] == pcm[1] && !all_zero(pcm[0]) {
        let one = seq![pcm[0]];
        assert forall|c: int, i: int|
            0 <= c < one.len() && 0 <= i < one[c].len() implies crate::encoder::in_depth(
            #[trigger] one[c][i],
            bits,
        ) by {
            assert(one[c][i] == pcm[0][i]);
        }
        law_frame_layout(one, level, bits);
        lemma_flags(one);
        assert(remarks(one) == 0);
        assert(remarks(pcm) != 0);
        assert(seq![one[0]] =~= one);
    }
}

/// The payload of a frame. One array is coded from the first residual on.
/// Two are coded in turns, the first array first, each from the same
/// start.
pub proof fn law_payload_of_arrays(arrays: Seq<Seq<i32>>)
    requires
        1 <= arrays.len() <= 2,
    ensures
        ({
            let state = RunningState { k: 10, ksum: 16384 };
            let path = path_of(3990);
            let one = ResidualEncoderModel { path, rc: fresh_encoder(), state };
            let two = PairEncoder { rc: fresh_encoder(), s0: state, s1: state };
            let a = arrays[0];
            let b = arrays[1];
            &&& arrays.len() == 1 ==> payload_of(arrays) == one.run(a)->Some_0.rc.flushed()
            &&& arrays.len() == 2 ==> payload_of(arrays) == write_pairs(
                path,
                two,
                a,
                b,
                a.len(),
            )->Some_0.rc.flushed()
        }),
{
}

/// The first value of a payload belongs to the first array, and the next
/// one to the second, where there are two.
pub proof fn law_first_array_is_read_first(d: ResidualDecoderModel, two: bool, n: nat)
    requires
        n >= 1,
        payload_arrays(d, two, n) is Ok,
    ensures
        ({
            let arrays = payload_arrays(d, two, n)->Ok_0.0;
            let (after, first) = d.residual();
            let second = ResidualDecoderModel { state: d.state, ..after }.residual().1;
            &&& arrays.len() == if two {
                2int
            } else {
                1
            }
            &&& first == Ok::<i32, Error>(arrays[0][0])
            &&& two ==> second == Ok::<i32, Error>(arrays[1][0])
        }),
{
    if two {
        lemma_first_pair(d, n);
    } else {
        lemma_first_value(d, n);
    }
}

proof fn lemma_first_value(d: ResidualDecoderModel, n: nat)
    requires
        n >= 1,
        d.run(n).1 is Ok,
    ensures
        d.run(n).1->Ok_0.len() == n,
        d.residual().1 == Ok::<i32, Error>(d.run(n).1->Ok_0[0]),
    decreases n,
{
    if n == 1 {
        reveal_with_fuel(ResidualDecoderModel::run, 2);
    } else {
        lemma_first_value(d, (n - 1) as nat);
    }
}

proof fn lemma_first_pair(d: ResidualDecoderModel, n: nat)
    requires
        n >= 1,
        read_pairs(d.path, d.rc, d.state, d.state, n).outcome is Ok,
    ensures
        ({
            let (a, b) = read_pairs(d.path, d.rc, d.state, d.state, n).outcome->Ok_0;
            let (after, first) = d.residual();
            let second = ResidualDecoderModel { state: d.state, ..after }.residual().1;
            &&& a.len() == n
            &&& b.len() == n
            &&& first == Ok::<i32, Error>(a[0])
            &&& second == Ok::<i32, Error>(b[0])
        }),
    decreases n,
{
    if n == 1 {
        reveal_with_fuel(read_pairs, 2);
    } else {
        lemma_first_pair(d, (n - 1) as nat);
    }
}

/// A frame that is neither silent nor made of two equal channels codes its
/// channels as version 3990 does.
pub proof fn law_other_payloads(pcm: Seq<Seq<i32>>, level: CompressionLevel, bits: u16)
    requires
        frame_error(pcm, bits) is None,
        !all_zero(pcm[0]) || !all_zero(pcm.last()),
        pcm.len() == 2 ==> pcm[0] != pcm[1],
    ensures
        ({
            let s = frame_bytes(pcm, level, bits);
            let at: int = if remarks(pcm) == 0 {
                5
            } else {
                9
            };
            s.skip(at) == payload_of(coded_arrays(pcm, 3990, level)->Ok_0)
        }),
{
    law_frame_layout(pcm, level, bits);
    lemma_flags(pcm);
}

} // verus!
