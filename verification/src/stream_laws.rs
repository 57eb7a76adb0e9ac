//! Frames received one after the other: how long they are and when they
//! play.

use vstd::prelude::*;

use crate::channel_laws::{law_mono_frame, law_stereo_frame, no_cross};
use crate::decoder::{pcm_of_frame, pcm_of_frames, residuals_of};
use crate::entropy::{read_pairs, Path, ResidualDecoderModel, RunningState};
use crate::error::Error;
use crate::file_header::{audio_end, FileModel};
use crate::frame::{frame_at, FrameModel};
use crate::header::CompressionLevel;
use crate::pcm::{channel_len, frame_samples, lemma_interleaved_len};
use crate::predict::{fresh_array, ArrayModel};
use crate::predictor_laws::array_run;
use crate::range_coder::DecoderModel;
use crate::registry::{DecodedModel, StreamError, StreamModel};

verus! {

/// The number of blocks in frame `index` of a file: the last one has its
/// own number.
pub open spec fn blocks_in(m: FileModel, index: int) -> int {
    if index == m.total_frames - 1 {
        m.final_frame_blocks as int
    } else {
        m.blocks_per_frame as int
    }
}

// ---------------------------------------------------------------------
// Lengths
// ---------------------------------------------------------------------

proof fn lemma_run_len(d: ResidualDecoderModel, n: nat)
    ensures
        d.run(n).1 matches Ok(a) ==> a.len() == n,
    decreases n,
{
    if n > 0 {
        lemma_run_len(d, (n - 1) as nat);
    }
}

proof fn lemma_pairs_len(path: Path, rc: DecoderModel, s: RunningState, n: nat)
    ensures
        read_pairs(path, rc, s, s, n).outcome matches Ok((a, b)) ==> a.len() == n && b.len() == n,
    decreases n,
{
    if n > 0 {
        lemma_pairs_len(path, rc, s, (n - 1) as nat);
    }
}

proof fn lemma_array_len(p: ArrayModel, r: Seq<i32>, x: Seq<i32>, n: nat)
    ensures
        array_run(p, r, x, n).1.len() == n,
    decreases n,
{
    if n > 0 {
        lemma_array_len(p, r, x, (n - 1) as nat);
    }
}

/// The arrays of a frame are as long as the frame.
proof fn lemma_frame_arrays(
    audio: Seq<u8>,
    offset: nat,
    version: u16,
    channels: u16,
    blocks: u32,
    k: int,
)
    requires
        frame_at(audio, offset, version, channels, blocks) is Ok,
    ensures
        1 <= channels <= 2,
        blocks <= 0x10_0000,
        ({
            let f = frame_at(audio, offset, version, channels, blocks)->Ok_0;
            &&& 0 <= k < f.arrays.len() ==> f.arrays[k].len() == blocks
            &&& f.silent ==> f.arrays.len() == channels
            &&& 1 <= f.arrays.len() <= channels
        }),
{
    let d = crate::frame::payload_decoder(audio, offset, version);
    lemma_run_len(d, blocks as nat);
    lemma_pairs_len(d.path, d.rc, d.state, blocks as nat);
}

/// The channels of a frame are as many as the file has, and as long as
/// the frame.
#[verifier::rlimit(40)]
proof fn lemma_frame_channels(
    f: FrameModel,
    version: u16,
    level: CompressionLevel,
    channels: u16,
    n: nat,
)
    requires
        1 <= channels <= 2,
        forall|k: int| 0 <= k < f.arrays.len() ==> (#[trigger] f.arrays[k]).len() == n,
        f.silent ==> f.arrays.len() == channels,
        1 <= f.arrays.len() <= channels,
        frame_samples(f, version, level, channels) is Ok,
    ensures
        ({
            let out = frame_samples(f, version, level, channels)->Ok_0;
            &&& out.len() == channels
            &&& channel_len(out) == n
        }),
{
    if f.silent {
    } else if f.arrays.len() == 1 {
        let r = f.arrays[0];
        law_mono_frame(f, version, level);
        lemma_array_len(fresh_array(version, level), r, no_cross(r.len()), r.len());
    } else {
        law_stereo_frame(f, version, level);
    }
}

/// A frame that decodes has as many bytes as its blocks, the channels and
/// the bit depth make, and at most `2^20` blocks.
pub proof fn law_frame_has_all_its_blocks(data: Seq<u8>, m: FileModel, index: u32)
    requires
        pcm_of_frame(data, m, index) is Ok,
    ensures
        index < m.total_frames,
        blocks_in(m, index as int) <= 0x10_0000,
        pcm_of_frame(data, m, index)->Ok_0.len() == blocks_in(m, index as int) * (m.channels * (
        m.bits_per_sample / 8)),
{
    let f = residuals_of(data, m, index)->Ok_0;
    let blocks = blocks_in(m, index as int) as u32;
    let (start, end) = crate::file_header::range_of_frame(m, index)->Ok_0;
    let audio = crate::decoder::region_of(data, m)->Ok_0;
    let offset = (start - m.audio_data_offset) as nat;
    assert(f == frame_at(audio, offset, m.version, m.channels, blocks)->Ok_0);
    assert forall|k: int| 0 <= k < f.arrays.len() implies (#[trigger] f.arrays[k]).len()
        == blocks by {
        lemma_frame_arrays(audio, offset, m.version, m.channels, blocks, k);
    }
    lemma_frame_arrays(audio, offset, m.version, m.channels, blocks, 0);
    lemma_frame_channels(f, m.version, m.compression_level, m.channels, blocks as nat);
    let pcm = frame_samples(f, m.version, m.compression_level, m.channels)->Ok_0;
    lemma_interleaved_len(pcm, m.bits_per_sample, blocks as nat);
}

// ---------------------------------------------------------------------
// Timestamps
// ---------------------------------------------------------------------

/// The frames that `k` requests hand out, one after the other, and the
/// decoder afterwards; `None` when a request fails.
pub open spec fn frames_received(s: StreamModel, k: nat) -> Option<
    (StreamModel, Seq<DecodedModel>),
>
    decreases k,
{
    if k == 0 {
        Some((s, Seq::empty()))
    } else {
        match frames_received(s, (k - 1) as nat) {
            None => None,
            Some((before, head)) => match before.receive() {
                (after, Ok(f)) => Some((after, head.push(f))),
                (_, Err(_)) => None,
            },
        }
    }
}

/// The number of blocks in the first `n` frames.
pub open spec fn samples_before(frames: Seq<DecodedModel>, n: int) -> int
    decreases n,
{
    if n <= 0 {
        0
    } else {
        samples_before(frames, n - 1) + frames[n - 1].samples as int
    }
}

proof fn lemma_samples_prefix(frames: Seq<DecodedModel>, f: DecodedModel, n: int)
    requires
        n <= frames.len(),
    ensures
        samples_before(frames.push(f), n) == samples_before(frames, n),
    decreases n,
{
    if n > 0 {
        lemma_samples_prefix(frames, f, n - 1);
    }
}

proof fn lemma_frames_received(s: StreamModel, m: FileModel, k: nat)
    requires
        s.header() == Ok::<FileModel, StreamError>(m),
        s.next_frame == 0,
        s.blocks_emitted == 0,
        audio_end(m) <= s.buf.len(),
        k <= m.total_frames,
        pcm_of_frames(s.buf, m, k) is Ok,
    ensures
        frames_received(s, k) is Some,
        ({
            let (after, frames) = frames_received(s, k)->Some_0;
            &&& frames.len() == k
            &&& after.header() == Ok::<FileModel, StreamError>(m)
            &&& after.buf == s.buf
            &&& after.next_frame == k
            &&& after.blocks_emitted == samples_before(frames, k as int)
            &&& after.blocks_emitted <= k * 0x10_0000
            &&& forall|i: int|
                0 <= i < k ==> {
                    let f = #[trigger] frames[i];
                    &&& f.samples == blocks_in(m, i)
                    &&& f.pts == Some(samples_before(frames, i) as i64)
                    &&& 0 <= samples_before(frames, i) <= i * 0x10_0000
                    &&& pcm_of_frame(s.buf, m, i as u32) == Ok::<Seq<u8>, Error>(f.data)
                }
        }),
    decreases k,
{
    if k > 0 {
        let j = (k - 1) as nat;
        lemma_frames_received(s, m, j);
        let (before, head) = frames_received(s, j)->Some_0;
        law_frame_has_all_its_blocks(s.buf, m, j as u32);
        let (after, got) = before.receive();
        let f = got->Ok_0;
        let frames = head.push(f);
        lemma_samples_prefix(head, f, j as int);
        assert(f.samples == blocks_in(m, j as int));
        assert forall|i: int| 0 <= i < k implies {
            let g = #[trigger] frames[i];
            &&& g.samples == blocks_in(m, i)
            &&& g.pts == Some(samples_before(frames, i) as i64)
            &&& 0 <= samples_before(frames, i) <= i * 0x10_0000
            &&& pcm_of_frame(s.buf, m, i as u32) == Ok::<Seq<u8>, Error>(g.data)
        } by {
            lemma_samples_prefix(head, f, i);
            if i < j {
                assert(head[i].samples == blocks_in(m, i));
            }
        }
    }
}

/// Time runs on: of the frames received one after the other from a fresh
/// stream, each has the blocks that the file gives it, its timestamp is
/// the number of blocks of all frames before it, and it ends where the
/// next one starts. All frames but the last are equally long, so frame `i`
/// starts at `i` times that length.
pub proof fn law_timestamps_add_up(s: StreamModel, m: FileModel, k: nat, i: int)
    requires
        s.header() == Ok::<FileModel, StreamError>(m),
        s.next_frame == 0,
        s.blocks_emitted == 0,
        audio_end(m) <= s.buf.len(),
        k <= m.total_frames,
        pcm_of_frames(s.buf, m, k) is Ok,
        0 <= i < k,
    ensures
        frames_received(s, k) is Some,
        ({
            let frames = frames_received(s, k)->Some_0.1;
            let f = frames[i];
            &&& frames.len() == k
            &&& f.pts is Some
            &&& f.pts->Some_0 == samples_before(frames, i)
            &&& f.pts->Some_0 == i * m.blocks_per_frame
            &&& i + 1 < k ==> frames[i + 1].pts is Some && frames[i + 1].pts->Some_0
                == f.pts->Some_0 + f.samples
            &&& f.samples == blocks_in(m, i)
            &&& f.data.len() == f.samples * (m.channels * (m.bits_per_sample / 8))
            &&& pcm_of_frame(s.buf, m, i as u32) == Ok::<Seq<u8>, Error>(f.data)
        }),
{
    lemma_frames_received(s, m, k);
    let frames = frames_received(s, k)->Some_0.1;
    assert(frames[i].samples == blocks_in(m, i));
    lemma_equal_frames(m, frames, k, i);
    law_frame_has_all_its_blocks(s.buf, m, i as u32);
    if i + 1 < k {
        assert(frames[i + 1].samples == blocks_in(m, i + 1));
    }
}

proof fn lemma_equal_frames(m: FileModel, frames: Seq<DecodedModel>, k: nat, i: int)
    requires
        k <= m.total_frames,
        frames.len() == k,
        forall|j: int| 0 <= j < k ==> (#[trigger] frames[j]).samples == blocks_in(m, j),
        0 <= i < k,
    ensures
        samples_before(frames, i) == i * m.blocks_per_frame,
    decreases i,
{
    if i > 0 {
        lemma_equal_frames(m, frames, k, i - 1);
        assert(frames[i - 1].samples == blocks_in(m, i - 1));
        assert(i * m.blocks_per_frame == (i - 1) * m.blocks_per_frame + m.blocks_per_frame)
            by (nonlinear_arith);
    } else {
        assert(0 * m.blocks_per_frame == 0) by (nonlinear_arith);
    }
}

/// The frames of a file follow each other without gaps: each runs from its
/// seek entry to the next one, and the last one to the end of the frames.
pub proof fn law_frames_are_adjacent(m: FileModel, i: u32)
    requires
        i < m.total_frames,
        m.seek_table.len() == m.total_frames,
        m.audio_data_offset + m.audio_data_len <= u64::MAX,
        m.audio_data_offset <= m.seek_table[i as int],
        i + 1 < m.total_frames ==> m.seek_table[i as int] <= m.seek_table[i + 1]
            <= m.audio_data_offset + m.audio_data_len,
        m.seek_table[i as int] <= m.audio_data_offset + m.audio_data_len,
    ensures
        ({
            let r = crate::file_header::range_of_frame(m, i);
            &&& r is Ok
            &&& r->Ok_0.0 == m.seek_table[i as int]
            &&& i + 1 < m.total_frames ==> r->Ok_0.1 == m.seek_table[i + 1]
            &&& i + 1 == m.total_frames ==> r->Ok_0.1 == m.audio_data_offset + m.audio_data_len
        }),
{
}

} // verus!
