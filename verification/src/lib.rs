//! Monkey's Audio (`.ape`): a lossless audio codec with a verified round
//! trip.
//!
//! A file holds frames of range-coded residuals. Decoding turns residuals
//! into samples through a chain of adaptive predictors; encoding runs the
//! same chain backwards. [`decoder::ApeDecoder`] reads files of both
//! header layouts, [`encoder::ApeEncoder`] writes them.
//!
//! Every module states its behaviour over mathematical models. The
//! modules whose names end in `_laws` prove what holds across them; the
//! main result, [`file_laws::law_file_round_trip`], says that decoding an
//! encoded file gives back exactly the samples that were encoded.

use vstd::prelude::*;

pub mod arith;
pub mod bounds;
pub mod bytes;
pub mod cascade;
pub mod channel_laws;
pub mod coding_laws;
pub mod config;
pub mod decoder;
pub mod decorrelate;
pub mod encoder;
pub mod entropy;
pub mod entropy_laws;
pub mod error;
pub mod file_header;
pub mod file_laws;
pub mod filter_config;
pub mod frame;
pub mod frame_laws;
pub mod freq_model;
pub mod header;
pub mod header_laws;
pub mod md5;
pub mod nn_filter;
pub mod nn_laws;
pub mod pcm;
pub mod pipeline;
pub mod predict;
pub mod predictor;
pub mod predictor_laws;
pub mod range_coder;
pub mod range_laws;
pub mod registry;
pub mod scalars;
pub mod stream_laws;
pub mod text;
pub mod wav_laws;
pub mod writer;

pub use crate::cascade::{
    cascade_decode, cascade_encode, filter_stage_decode, filter_stage_encode, StageState,
};
pub use crate::config::StreamConfig;
pub use crate::decoder::{ApeDecoder, FrameDecode, FrameDeltaSource};
pub use crate::decorrelate::{
    decorrelate_pair, decorrelate_pair_arith_shift, reconstruct_block,
    reconstruct_block_arith_shift, reconstruct_pair, reconstruct_pair_arith_shift,
};
pub use crate::encoder::{encode_pcm, encode_wav, ApeEncoder, EncoderConfig};
pub use crate::error::{Error, Result};
pub use crate::filter_config::{
    cascade_for_level, FilterCascade, FilterStage, FILTER_STAGES, MAX_CASCADE_DEPTH,
};
pub use crate::freq_model::{
    counts_for_version, freqs_for_version, symbol_for_cum_freq, symbol_interval, symbol_width,
    COUNTS_GE3990, COUNTS_LE3980, FREQS_GE3990, FREQS_LE3980, FREQ_MODEL_VERSION_SPLIT,
    MODEL_ELEMENTS, POWERS_OF_TWO_MINUS_ONE, RANGE_OVERFLOW_SHIFT, RANGE_TOTAL_WIDTH,
};
pub use crate::header::{
    CompressionLevel, HeaderPrefix, FILE_EXTENSION, HEADER_PREFIX_LEN, MAGIC,
};
pub use crate::pipeline::{
    decode_frame, encode_frame, CorrelationRounding, DeltaSink, DeltaSource, FrameChannels,
};
pub use crate::predictor::{
    adapt_sign, predict_dot, predict_step, predict_step_self_ref, residual_step,
    residual_step_self_ref,
};
pub use crate::scalars::{
    ksum_pivot, stage1_predict, KSUM_PIVOT_DIVISOR, PREDICTOR_HISTORY_SEED, STAGE1_FILTER_SHIFT,
    STAGE1_FILTER_WEIGHT,
};

use crate::header::starts_with_magic;

verus! {

/// Name of the crate.
pub const CRATE_NAME: &'static str = "oxideav-ape";

/// Whether `bytes` opens with the magic of a file.
pub fn is_ape_magic(bytes: &[u8]) -> (r: bool)
    ensures
        r == (bytes@.len() >= 4 && bytes@.take(4) == MAGIC@),
{
    starts_with_magic(bytes)
}

/// The name under which the codec is listed.
pub fn registry_name() -> (r: &'static str)
    ensures
        r@ == "oxideav-ape"@,
{
    "oxideav-ape"
}

} // verus!
