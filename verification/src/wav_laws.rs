//! WAV files built from their fields are taken apart into these fields.

use vstd::prelude::*;

use crate::bytes::{
    le16_at, le16_bytes, le32_at, le32_bytes, lemma_le16_back, lemma_le16_len, lemma_le32_back,
    lemma_le32_len,
};
use crate::encoder::{tag_at, wav_parts, wav_split, wav_walk, WavFormat, WavModel};
use crate::error::Error;
use crate::file_laws::lemma_middle;
use crate::writer::wav_header_for;

verus! {

broadcast use {lemma_le16_len, lemma_le32_len};

/// What a WAV file is built from.
pub ghost struct WavFile {
    /// The stored length of the file, which nobody reads.
    pub riff_len: nat,
    /// Encoding of the samples.
    pub tag: u16,
    pub channels: u16,
    pub sample_rate: u32,
    /// The stored byte rate and block length, which nobody reads.
    pub byte_rate: nat,
    pub align: nat,
    pub bits_per_sample: u16,
    pub pcm: Seq<u8>,
    pub tail: Seq<u8>,
}

impl WavFile {
    /// The 44 bytes before the samples.
    pub open spec fn head(self) -> Seq<u8> {
        seq![82u8, 73, 70, 70] + le32_bytes(self.riff_len) + seq![87u8, 65, 86, 69]
            + seq![102u8, 109, 116, 32] + le32_bytes(16) + le16_bytes(self.tag as nat)
            + le16_bytes(self.channels as nat) + le32_bytes(self.sample_rate as nat) + le32_bytes(
            self.byte_rate,
        ) + le16_bytes(self.align) + le16_bytes(self.bits_per_sample as nat)
            + seq![100u8, 97, 116, 97] + le32_bytes(self.pcm.len())
    }

    /// The file.
    pub open spec fn file(self) -> Seq<u8> {
        self.head() + self.pcm + self.tail
    }
}

proof fn lemma_wav_fields(f: WavFile)
    requires
        f.pcm.len() <= u32::MAX,
    ensures
        ({
            let s = f.head();
            &&& s.len() == 44
            &&& s.subrange(0, 4) == seq![82u8, 73, 70, 70]
            &&& s.subrange(8, 12) == seq![87u8, 65, 86, 69]
            &&& s.subrange(12, 16) == seq![102u8, 109, 116, 32]
            &&& s.subrange(16, 20) == le32_bytes(16)
            &&& s.subrange(20, 22) == le16_bytes(f.tag as nat)
            &&& s.subrange(22, 24) == le16_bytes(f.channels as nat)
            &&& s.subrange(24, 28) == le32_bytes(f.sample_rate as nat)
            &&& s.subrange(34, 36) == le16_bytes(f.bits_per_sample as nat)
            &&& s.subrange(36, 40) == seq![100u8, 97, 116, 97]
            &&& s.subrange(40, 44) == le32_bytes(f.pcm.len())
        }),
{
    let s = f.head();
    assert(s.subrange(0, 4) =~= seq![82u8, 73, 70, 70]);
    assert(s.subrange(8, 12) =~= seq![87u8, 65, 86, 69]);
    assert(s.subrange(12, 16) =~= seq![102u8, 109, 116, 32]);
    assert(s.subrange(16, 20) =~= le32_bytes(16));
    assert(s.subrange(20, 22) =~= le16_bytes(f.tag as nat));
    assert(s.subrange(22, 24) =~= le16_bytes(f.channels as nat));
    assert(s.subrange(24, 28) =~= le32_bytes(f.sample_rate as nat));
    assert(s.subrange(34, 36) =~= le16_bytes(f.bits_per_sample as nat));
    assert(s.subrange(36, 40) =~= seq![100u8, 97, 116, 97]);
    assert(s.subrange(40, 44) =~= le32_bytes(f.pcm.len()));
}

proof fn lemma_wav_numbers(f: WavFile)
    requires
        f.pcm.len() <= u32::MAX,
    ensures
        ({
            let wav = f.file();
            &&& wav.len() == 44 + f.pcm.len() + f.tail.len()
            &&& tag_at(wav, 0) == seq![82u8, 73, 70, 70]
            &&& tag_at(wav, 8) == seq![87u8, 65, 86, 69]
            &&& tag_at(wav, 12) == seq![102u8, 109, 116, 32]
            &&& le32_at(wav, 16) == 16
            &&& le16_at(wav, 20) == f.tag
            &&& le16_at(wav, 22) == f.channels
            &&& le32_at(wav, 24) == f.sample_rate
            &&& le16_at(wav, 34) == f.bits_per_sample
            &&& tag_at(wav, 36) == seq![100u8, 97, 116, 97]
            &&& le32_at(wav, 40) == f.pcm.len()
        }),
{
    let s = f.head();
    let wav = f.file();
    let e = Seq::<u8>::empty();
    let post = f.pcm + f.tail;
    lemma_wav_fields(f);
    assert(wav =~= e + s + post);
    lemma_middle(e, s, post, 0, 4);
    lemma_middle(e, s, post, 8, 12);
    lemma_middle(e, s, post, 12, 16);
    lemma_middle(e, s, post, 16, 20);
    lemma_middle(e, s, post, 20, 22);
    lemma_middle(e, s, post, 22, 24);
    lemma_middle(e, s, post, 24, 28);
    lemma_middle(e, s, post, 34, 36);
    lemma_middle(e, s, post, 36, 40);
    lemma_middle(e, s, post, 40, 44);
    lemma_le32_back(16, wav, 16);
    lemma_le16_back(f.tag as nat, wav, 20);
    lemma_le16_back(f.channels as nat, wav, 22);
    lemma_le32_back(f.sample_rate as nat, wav, 24);
    lemma_le16_back(f.bits_per_sample as nat, wav, 34);
    lemma_le32_back(f.pcm.len(), wav, 40);
}

/// A WAV file of whole blocks of integer samples is taken apart into the
/// fields that it was built from: channels, sample rate and bit depth, the
/// 44 bytes before the samples, the samples, and what follows them.
pub proof fn law_wav_fields(f: WavFile)
    requires
        f.tag == 1 || f.tag == 0xFFFE,
        f.channels * (f.bits_per_sample / 8) > 0,
        f.pcm.len() as int % (f.channels * (f.bits_per_sample / 8)) == 0,
        f.pcm.len() <= u32::MAX,
    ensures
        wav_split(f.file()) == Ok::<WavModel, Error>(
            WavModel {
                channels: f.channels,
                sample_rate: f.sample_rate,
                bits_per_sample: f.bits_per_sample,
                header: f.head(),
                pcm: f.pcm,
                terminating: f.tail,
            },
        ),
{
    let wav = f.file();
    let format = WavFormat {
        tag: f.tag,
        channels: f.channels,
        sample_rate: f.sample_rate,
        bits_per_sample: f.bits_per_sample,
    };
    lemma_wav_fields(f);
    lemma_wav_numbers(f);
    assert(seq![102u8, 109, 116, 32][0] != seq![100u8, 97, 116, 97][0]);
    assert(wav.take(44) =~= f.head());
    let end = 44 + f.pcm.len() as int;
    assert(wav.subrange(44, end) =~= f.pcm);
    assert(wav.skip(end) =~= f.tail);
    assert(wav_walk(wav, 36, Some(format)) == wav_parts(wav, 44, f.pcm.len(), Some(format)));
    assert(wav_walk(wav, 12, None) == wav_walk(wav, 36, Some(format)));
}

/// A header that is made up says what it should of its samples.
pub proof fn law_made_up_header(f: WavFile)
    requires
        f.tag == 1,
        f.pcm.len() <= u32::MAX,
        f.riff_len == (f.pcm.len() + 36) % 0x1_0000_0000,
        f.align == f.channels * ((f.bits_per_sample + 7) / 8),
        f.byte_rate == f.sample_rate * f.align,
    ensures
        wav_header_for(f.channels, f.sample_rate, f.bits_per_sample, f.pcm.len() as u32)
            == f.head(),
{
}

} // verus!
