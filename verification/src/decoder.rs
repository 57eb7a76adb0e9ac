//! Decoding a whole file.

use vstd::prelude::*;
use vstd::slice::*;

use crate::bytes::push_slice;
use crate::error::{Error, Result};
use crate::file_header::{
    audio_end, blocks_of_frame, parsed, range_of_frame, FileInfo, FileModel,
};
use crate::frame::{
    addressable, decode_frame_residuals, frame_at, stored_crc, FrameModel, FrameResiduals,
};
use crate::pcm::{frame_pcm, frame_samples, interleave_pcm_bytes, interleaved_bytes};
use crate::pipeline::{contents, DeltaSource};

verus! {

// ---------------------------------------------------------------------
// Model
// ---------------------------------------------------------------------

/// The bytes of frame `index`, by the seek table.
pub open spec fn bytes_of_frame(data: Seq<u8>, m: FileModel, index: u32) -> Result<Seq<u8>> {
    match range_of_frame(m, index) {
        Err(e) => Err(e),
        Ok((start, end)) => if end > data.len() || start > end {
            Err(Error::Truncated)
        } else {
            Ok(data.subrange(start as int, end as int))
        },
    }
}

/// The part of the file that holds the frames.
pub open spec fn region_of(data: Seq<u8>, m: FileModel) -> Result<Seq<u8>> {
    if audio_end(m) > data.len() || m.audio_data_offset > audio_end(m) {
        Err(Error::Truncated)
    } else {
        Ok(data.subrange(m.audio_data_offset as int, audio_end(m) as int))
    }
}

/// The residual arrays of frame `index`.
pub open spec fn residuals_of(data: Seq<u8>, m: FileModel, index: u32) -> Result<FrameModel> {
    match range_of_frame(m, index) {
        Err(e) => Err(e),
        Ok((start, end)) => match region_of(data, m) {
            Err(e) => Err(e),
            Ok(audio) => match blocks_of_frame(m, index) {
                Err(e) => Err(e),
                Ok(blocks) => frame_at(
                    audio,
                    (start - m.audio_data_offset) as nat,
                    m.version,
                    m.channels,
                    blocks,
                ),
            },
        },
    }
}

/// The channels of frame `index`.
pub open spec fn samples_of_frame(data: Seq<u8>, m: FileModel, index: u32) -> Result<
    Seq<Seq<i32>>,
> {
    match residuals_of(data, m, index) {
        Err(e) => Err(e),
        Ok(f) => frame_samples(f, m.version, m.compression_level, m.channels),
    }
}

/// The interleaved bytes of frame `index`, if they have the stored
/// checksum.
pub open spec fn pcm_of_frame(data: Seq<u8>, m: FileModel, index: u32) -> Result<Seq<u8>> {
    match residuals_of(data, m, index) {
        Err(e) => Err(e),
        Ok(f) => match frame_samples(f, m.version, m.compression_level, m.channels) {
            Err(e) => Err(e),
            Ok(pcm) => match interleaved_bytes(pcm, m.bits_per_sample) {
                Err(e) => Err(e),
                Ok(bytes) => if stored_crc(bytes) != f.prologue.crc31 {
                    Err(Error::Malformed("stored frame CRC disagrees with the decoded PCM"))
                } else {
                    Ok(bytes)
                },
            },
        },
    }
}

/// No frame is handed out whose samples do not have the stored checksum.
pub proof fn law_frames_are_verified(data: Seq<u8>, m: FileModel, index: u32)
    requires
        pcm_of_frame(data, m, index) is Ok,
    ensures
        residuals_of(data, m, index) is Ok,
        stored_crc(pcm_of_frame(data, m, index)->Ok_0)
            == residuals_of(data, m, index)->Ok_0.prologue.crc31,
{
}

/// The interleaved bytes of the first `k` frames, or the first error.
pub open spec fn pcm_of_frames(data: Seq<u8>, m: FileModel, k: nat) -> Result<Seq<u8>>
    decreases k,
{
    if k == 0 {
        Ok(Seq::empty())
    } else {
        match pcm_of_frames(data, m, (k - 1) as nat) {
            Err(e) => Err(e),
            Ok(head) => match pcm_of_frame(data, m, (k - 1) as u32) {
                Err(e) => Err(e),
                Ok(bytes) => Ok(head + bytes),
            },
        }
    }
}

/// A failed decode does not recover.
proof fn lemma_frames_stop(data: Seq<u8>, m: FileModel, i: nat, k: nat)
    requires
        i <= k,
        pcm_of_frames(data, m, i) is Err,
    ensures
        pcm_of_frames(data, m, k) == pcm_of_frames(data, m, i),
    decreases k,
{
    if i < k {
        lemma_frames_stop(data, m, i, (k - 1) as nat);
    }
}

// ---------------------------------------------------------------------
// Decoder
// ---------------------------------------------------------------------

/// What a frame decodes to.
#[derive(Debug, Clone, PartialEq, Eq)]
pub enum FrameDecode {
    /// The samples, one vector per channel.
    Pcm(Vec<Vec<i32>>),
    /// The residual arrays, for file versions without a predictor.
    Residuals(FrameResiduals),
}

/// What a [`FrameDecode`] stands for.
pub ghost enum DecodeModel {
    Pcm(Seq<Seq<i32>>),
    Residuals(FrameModel),
}

impl View for FrameDecode {
    type V = DecodeModel;

    open spec fn view(&self) -> DecodeModel {
        match self {
            FrameDecode::Pcm(p) => DecodeModel::Pcm(contents(p@)),
            FrameDecode::Residuals(f) => DecodeModel::Residuals(f@),
        }
    }
}

/// What frame `index` decodes to.
pub open spec fn decode_of_frame(data: Seq<u8>, m: FileModel, index: u32) -> Result<DecodeModel> {
    match residuals_of(data, m, index) {
        Err(e) => Err(e),
        Ok(f) => match frame_samples(f, m.version, m.compression_level, m.channels) {
            Ok(pcm) => Ok(DecodeModel::Pcm(pcm)),
            Err(Error::NotImplemented) => Ok(DecodeModel::Residuals(f)),
            Err(e) => Err(e),
        },
    }
}

/// Files before version 3930 have no known predictor: a frame that is not
/// silent decodes to its residual arrays and to no samples. Later ones
/// decode to samples, and then never to residual arrays.
pub proof fn law_older_files_decode_to_residuals(data: Seq<u8>, m: FileModel, index: u32)
    requires
        residuals_of(data, m, index) is Ok,
        residuals_of(data, m, index)->Ok_0.arrays.len() == m.channels,
    ensures
        ({
            let f = residuals_of(data, m, index)->Ok_0;
            &&& m.version < 3930 && !f.silent && 1 <= m.channels <= 2 && (m.channels == 2
                ==> f.arrays[0].len() == f.arrays[1].len()) ==> {
                &&& decode_of_frame(data, m, index) == Ok::<DecodeModel, Error>(
                    DecodeModel::Residuals(f),
                )
                &&& pcm_of_frame(data, m, index) == Err::<Seq<u8>, Error>(Error::NotImplemented)
            }
            &&& f.silent ==> decode_of_frame(data, m, index) == Ok::<DecodeModel, Error>(
                DecodeModel::Pcm(f.arrays),
            )
            &&& samples_of_frame(data, m, index) matches Ok(pcm) ==> decode_of_frame(
                data,
                m,
                index,
            ) == Ok::<DecodeModel, Error>(DecodeModel::Pcm(pcm))
        }),
{
}

/// Decoder over the buffer of a whole file.
#[derive(Debug, Clone)]
pub struct ApeDecoder<'a> {
    pub data: &'a [u8],
    pub info: FileInfo,
}

impl<'a> ApeDecoder<'a> {
    /// Parses the header of a file.
    pub fn new(data: &'a [u8]) -> (r: Result<Self>)
        ensures
            match parsed(data@) {
                Err(e) => r == Err::<ApeDecoder<'a>, Error>(e),
                Ok(m) => r is Ok && r->Ok_0.data@ == data@ && r->Ok_0.info@ == m
                    && r->Ok_0.info.wf(),
            },
    {
        match FileInfo::parse(data) {
            Err(e) => Err(e),
            Ok(info) => Ok(ApeDecoder { data, info }),
        }
    }

    /// A decoder with an already parsed header. The buffer has to be at
    /// least as long as the one that was parsed.
    pub fn from_parsed(data: &'a [u8], info: FileInfo) -> (r: Result<Self>)
        ensures
            data@.len() < info@.data_len ==> r == Err::<ApeDecoder<'a>, Error>(Error::Truncated),
            data@.len() >= info@.data_len ==> r is Ok && r->Ok_0.data@ == data@ && r->Ok_0.info
                == info,
    {
        if data.len() < info.data_len() {
            return Err(Error::Truncated);
        }
        Ok(ApeDecoder { data, info })
    }

    /// The parsed header.
    pub fn info(&self) -> (r: &FileInfo)
        ensures
            *r == self.info,
    {
        &self.info
    }

    /// Number of frames.
    pub fn frame_count(&self) -> (r: u32)
        ensures
            r == self.info@.total_frames,
    {
        self.info.total_frames
    }

    /// The bytes of frame `index`, by the seek table.
    pub fn frame_bytes(&self, index: u32) -> (r: Result<&'a [u8]>)
        ensures
            match bytes_of_frame(self.data@, self.info@, index) {
                Err(e) => r == Err::<&'a [u8], Error>(e),
                Ok(b) => r is Ok && r->Ok_0@ == b,
            },
    {
        match self.info.frame_byte_range(index) {
            Err(e) => Err(e),
            Ok((start, end)) => {
                if end > self.data.len() as u64 || start > end {
                    return Err(Error::Truncated);
                }
                Ok(slice_subrange(self.data, start as usize, end as usize))
            },
        }
    }

    /// The part of the file that holds the frames.
    pub fn audio_region(&self) -> (r: Result<&'a [u8]>)
        ensures
            match region_of(self.data@, self.info@) {
                Err(e) => r == Err::<&'a [u8], Error>(e),
                Ok(b) => r is Ok && r->Ok_0@ == b,
            },
    {
        let start: usize = self.info.audio_data_offset;
        let end: u64 = self.info.audio_data_end();
        if end > self.data.len() as u64 || start as u64 > end {
            return Err(Error::Truncated);
        }
        Ok(slice_subrange(self.data, start, end as usize))
    }

    /// The residual arrays of frame `index`.
    pub fn frame_residuals(&self, index: u32) -> (r: Result<FrameResiduals>)
        requires
            addressable(self.data@.len()),
        ensures
            match residuals_of(self.data@, self.info@, index) {
                Err(e) => r == Err::<FrameResiduals, Error>(e),
                Ok(f) => r is Ok && r->Ok_0@ == f,
            },
    {
        let (start, _end) = match self.info.frame_byte_range(index) {
            Err(e) => {
                return Err(e);
            },
            Ok(range) => range,
        };
        let audio = match self.audio_region() {
            Err(e) => {
                return Err(e);
            },
            Ok(audio) => audio,
        };
        let blocks = match self.info.frame_blocks(index) {
            Err(e) => {
                return Err(e);
            },
            Ok(blocks) => blocks,
        };
        let offset: usize = (start - self.info.audio_data_offset as u64) as usize;
        decode_frame_residuals(audio, offset, self.info.version, self.info.channels, blocks)
    }

    /// Decodes frame `index`: the samples, or the residual arrays where
    /// the file version has no predictor.
    pub fn decode_frame(&self, index: u32) -> (r: Result<FrameDecode>)
        requires
            addressable(self.data@.len()),
        ensures
            match decode_of_frame(self.data@, self.info@, index) {
                Err(e) => r == Err::<FrameDecode, Error>(e),
                Ok(d) => r is Ok && r->Ok_0@ == d,
            },
    {
        let out = match self.frame_residuals(index) {
            Err(e) => {
                return Err(e);
            },
            Ok(out) => out,
        };
        match frame_pcm(
            &out,
            self.info.version,
            self.info.compression_level,
            self.info.channels,
        ) {
            Ok(pcm) => Ok(FrameDecode::Pcm(pcm)),
            Err(Error::NotImplemented) => Ok(FrameDecode::Residuals(out)),
            Err(e) => Err(e),
        }
    }

    /// Decodes frame `index` to samples, one vector per channel.
    pub fn decode_frame_pcm(&self, index: u32) -> (r: Result<Vec<Vec<i32>>>)
        requires
            addressable(self.data@.len()),
        ensures
            match samples_of_frame(self.data@, self.info@, index) {
                Err(e) => r == Err::<Vec<Vec<i32>>, Error>(e),
                Ok(pcm) => r is Ok && contents(r->Ok_0@) == pcm,
            },
    {
        match self.frame_residuals(index) {
            Err(e) => Err(e),
            Ok(out) => frame_pcm(
                &out,
                self.info.version,
                self.info.compression_level,
                self.info.channels,
            ),
        }
    }

    /// Decodes frame `index` to interleaved bytes and checks them against
    /// the stored checksum.
    pub fn decode_frame_bytes(&self, index: u32) -> (r: Result<Vec<u8>>)
        requires
            addressable(self.data@.len()),
        ensures
            match pcm_of_frame(self.data@, self.info@, index) {
                Err(e) => r == Err::<Vec<u8>, Error>(e),
                Ok(b) => r is Ok && r->Ok_0@ == b,
            },
    {
        let out = match self.frame_residuals(index) {
            Err(e) => {
                return Err(e);
            },
            Ok(out) => out,
        };
        let pcm = match frame_pcm(
            &out,
            self.info.version,
            self.info.compression_level,
            self.info.channels,
        ) {
            Err(e) => {
                return Err(e);
            },
            Ok(pcm) => pcm,
        };
        let bytes = match interleave_pcm_bytes(pcm.as_slice(), self.info.bits_per_sample) {
            Err(e) => {
                return Err(e);
            },
            Ok(bytes) => bytes,
        };
        if !out.prologue.matches_pcm_crc(bytes.as_slice()) {
            return Err(Error::Malformed("stored frame CRC disagrees with the decoded PCM"));
        }
        Ok(bytes)
    }

    /// Decodes the whole file to interleaved bytes, every frame checked.
    pub fn decode_all_bytes(&self) -> (r: Result<Vec<u8>>)
        requires
            addressable(self.data@.len()),
        ensures
            match pcm_of_frames(self.data@, self.info@, self.info@.total_frames as nat) {
                Err(e) => r == Err::<Vec<u8>, Error>(e),
                Ok(b) => r is Ok && r->Ok_0@ == b,
            },
    {
        let mut out: Vec<u8> = Vec::new();
        let n: u32 = self.frame_count();
        let mut i: u32 = 0;
        assert(out@ =~= Seq::<u8>::empty());
        while i < n
            invariant
                i <= n,
                n == self.info@.total_frames,
                addressable(self.data@.len()),
                pcm_of_frames(self.data@, self.info@, i as nat) == Ok::<Seq<u8>, Error>(out@),
            decreases n - i,
        {
            match self.decode_frame_bytes(i) {
                Err(e) => {
                    proof {
                        lemma_frames_stop(self.data@, self.info@, i as nat + 1, n as nat);
                    }
                    return Err(e);
                },
                Ok(bytes) => {
                    push_slice(&mut out, bytes.as_slice());
                },
            }
            i = i + 1;
        }
        Ok(out)
    }

    /// Whether `pcm_bytes` has the checksum that frame `index` stores.
    pub fn verify_frame_crc(&self, index: u32, pcm_bytes: &[u8]) -> (r: Result<bool>)
        requires
            addressable(self.data@.len()),
        ensures
            match residuals_of(self.data@, self.info@, index) {
                Err(e) => r == Err::<bool, Error>(e),
                Ok(f) => r == Ok::<bool, Error>(stored_crc(pcm_bytes@) == f.prologue.crc31),
            },
    {
        match self.frame_residuals(index) {
            Err(e) => Err(e),
            Ok(out) => Ok(out.prologue.matches_pcm_crc(pcm_bytes)),
        }
    }
}

// ---------------------------------------------------------------------
// Arrays for the frame walk
// ---------------------------------------------------------------------

/// The residual arrays of one frame as a [`DeltaSource`]. A frame with
/// two equal channels serves its array to both.
#[derive(Debug, Clone)]
pub struct FrameDeltaSource {
    pub arrays: Vec<Vec<i32>>,
    pub pseudo_stereo: bool,
}

impl FrameDeltaSource {
    /// Decodes the frame at `frame_byte_offset` of `audio`.
    pub fn decode(
        audio: &[u8],
        frame_byte_offset: usize,
        file_version: u16,
        channels: u16,
        blocks: u32,
    ) -> (r: Result<Self>)
        requires
            addressable(audio@.len()),
        ensures
            match frame_at(audio@, frame_byte_offset as nat, file_version, channels, blocks) {
                Err(e) => r == Err::<FrameDeltaSource, Error>(e),
                Ok(f) => r is Ok && contents(r->Ok_0.arrays@) == f.arrays
                    && r->Ok_0.pseudo_stereo == (channels == 2 && f.arrays.len() == 1),
            },
    {
        match decode_frame_residuals(audio, frame_byte_offset, file_version, channels, blocks) {
            Err(e) => Err(e),
            Ok(out) => {
                let arrays = out.arrays;
                let pseudo_stereo = channels == 2 && arrays.len() == 1;
                Ok(FrameDeltaSource { arrays, pseudo_stereo })
            },
        }
    }

    /// The arrays.
    pub fn arrays(&self) -> (r: &[Vec<i32>])
        ensures
            r@ == self.arrays@,
    {
        self.arrays.as_slice()
    }
}

impl DeltaSource for FrameDeltaSource {
    open spec fn unpacks(
        self,
        channel: usize,
        before: Seq<i32>,
        outcome: Result<()>,
        after: Seq<i32>,
        next: Self,
    ) -> bool {
        let idx: int = if self.pseudo_stereo {
            0
        } else {
            channel as int
        };
        &&& next == self
        &&& if idx >= self.arrays@.len() {
            &&& outcome == Err::<(), Error>(Error::Malformed("channel index past coded arrays"))
            &&& after == before
        } else if self.arrays@[idx]@.len() != before.len() {
            &&& outcome == Err::<(), Error>(
                Error::Malformed("frame length disagrees with delta array"),
            )
            &&& after == before
        } else {
            &&& outcome == Ok::<(), Error>(())
            &&& after == self.arrays@[idx]@
        }
    }

    fn unpack_deltas(&mut self, channel: usize, out: &mut [i32]) -> (r: Result<()>) {
        let idx: usize = if self.pseudo_stereo {
            0
        } else {
            channel
        };
        if idx >= self.arrays.len() {
            return Err(Error::Malformed("channel index past coded arrays"));
        }
        let arr = &self.arrays[idx];
        let n: usize = arr.len();
        if n != out.len() {
            return Err(Error::Malformed("frame length disagrees with delta array"));
        }
        let mut i: usize = 0;
        while i < n
            invariant
                i <= n,
                n == arr@.len(),
                n == out@.len(),
                forall|k: int| 0 <= k < i ==> out@[k] == arr@[k],
            decreases n - i,
        {
            out[i] = arr[i];
            i = i + 1;
        }
        assert(out@ =~= arr@);
        Ok(())
    }
}

} // verus!
