//! The error type shared by every layer of the crate.

use vstd::prelude::*;
use vstd::string::*;

use crate::text::{append_decimal, decimal_text};

verus! {

/// Everything that can go wrong while reading or writing a stream.
#[derive(Debug, Clone, PartialEq, Eq)]
pub enum Error {
    /// The four-byte `'MAC '` magic is missing.
    InvalidMagic,
    /// The stream ends inside a structure that has to be present.
    Truncated,
    /// The 16-bit compression-level field is none of
    /// 1000, 2000, 3000, 4000 and 5000.
    UnknownCompressionLevel(u16),
    /// A textual compression level is none of "fast", "normal",
    /// "high", "extra high" and "insane".
    UnknownCompressionLabel,
    /// The operation is outside what this crate offers.
    NotImplemented,
    /// The four slices of a channel reconstruction disagree on length.
    ChannelLengthMismatch {
        /// Length of the `X` input slice.
        x: usize,
        /// Length of the `Y` input slice.
        y: usize,
        /// Length of the `left` output slice.
        left: usize,
        /// Length of the `right` output slice.
        right: usize,
    },
    /// A prediction history and a coefficient vector disagree on the
    /// predictor order.
    PredictorOrderMismatch {
        /// Length of the prediction `history` window.
        history: usize,
        /// Length of the adaptive `par` coefficient vector.
        par: usize,
    },
    /// The range-coded stream drove the coder into a state that no
    /// well-formed stream produces. The payload names the primitive.
    CorruptStream(&'static str),
    /// A header, descriptor or tail structure violates a layout
    /// invariant. The payload names it.
    Malformed(&'static str),
    /// `total_frames == 0`: the encode was never finished.
    NonFinalized,
    /// A caller-supplied sample buffer or configuration is outside what
    /// the encoder accepts. The payload says why.
    InvalidInput(&'static str),
}

/// Result of the crate's fallible operations.
pub type Result<T> = core::result::Result<T, Error>;

/// The text that [`Error::message`] returns.
pub open spec fn error_text(e: Error) -> Seq<char> {
    match e {
        Error::InvalidMagic => "oxideav-ape: invalid 'MAC ' magic at offset 0"@,
        Error::Truncated => "oxideav-ape: stream truncated inside the 8-byte header prefix"@,
        Error::UnknownCompressionLevel(v) => "oxideav-ape: compression level "@
            + decimal_text(v as nat)
            + " is outside the documented {1000,2000,3000,4000,5000} set"@,
        Error::UnknownCompressionLabel =>
            "oxideav-ape: compression label is outside the documented {fast, normal, high, extra high, insane} set"@,
        Error::NotImplemented =>
            "oxideav-ape: feature not implemented in Phase 1 (header prefix parser only)"@,
        Error::ChannelLengthMismatch { x, y, left, right } =>
            "oxideav-ape: channel-decorrelation slice lengths disagree — x="@
            + decimal_text(x as nat) + ", y="@ + decimal_text(y as nat) + ", left="@
            + decimal_text(left as nat) + ", right="@ + decimal_text(right as nat),
        Error::PredictorOrderMismatch { history, par } =>
            "oxideav-ape: IIR-predictor history/par lengths disagree on order — history="@
            + decimal_text(history as nat) + ", par="@ + decimal_text(par as nat),
        Error::CorruptStream(what) => "oxideav-ape: corrupt entropy stream — "@ + what@,
        Error::Malformed(what) => "oxideav-ape: malformed file structure — "@ + what@,
        Error::NonFinalized =>
            "oxideav-ape: non-finalised file (total_frames == 0 marks a truncated encode)"@,
        Error::InvalidInput(what) => "oxideav-ape: invalid encoder input — "@ + what@,
    }
}

impl Error {
    /// One line of text that describes the error.
    pub fn message(&self) -> (s: String)
        ensures
            s@ == error_text(*self),
    {
        match self {
            Error::InvalidMagic => "oxideav-ape: invalid 'MAC ' magic at offset 0".to_owned(),
            Error::Truncated =>
                "oxideav-ape: stream truncated inside the 8-byte header prefix".to_owned(),
            Error::UnknownCompressionLevel(v) => {
                let mut s = "oxideav-ape: compression level ".to_owned();
                append_decimal(&mut s, *v as u64);
                s.append(" is outside the documented {1000,2000,3000,4000,5000} set");
                s
            },
            Error::UnknownCompressionLabel =>
                "oxideav-ape: compression label is outside the documented {fast, normal, high, extra high, insane} set".to_owned(),
            Error::NotImplemented =>
                "oxideav-ape: feature not implemented in Phase 1 (header prefix parser only)".to_owned(),
            Error::ChannelLengthMismatch { x, y, left, right } => {
                let mut s = "oxideav-ape: channel-decorrelation slice lengths disagree — x=".to_owned();
                append_decimal(&mut s, *x as u64);
                s.append(", y=");
                append_decimal(&mut s, *y as u64);
                s.append(", left=");
                append_decimal(&mut s, *left as u64);
                s.append(", right=");
                append_decimal(&mut s, *right as u64);
                s
            },
            Error::PredictorOrderMismatch { history, par } => {
                let mut s = "oxideav-ape: IIR-predictor history/par lengths disagree on order — history=".to_owned();
                append_decimal(&mut s, *history as u64);
                s.append(", par=");
                append_decimal(&mut s, *par as u64);
                s
            },
            Error::CorruptStream(what) => {
                let mut s = "oxideav-ape: corrupt entropy stream — ".to_owned();
                s.append(what);
                s
            },
            Error::Malformed(what) => {
                let mut s = "oxideav-ape: malformed file structure — ".to_owned();
                s.append(what);
                s
            },
            Error::NonFinalized =>
                "oxideav-ape: non-finalised file (total_frames == 0 marks a truncated encode)".to_owned(),
            Error::InvalidInput(what) => {
                let mut s = "oxideav-ape: invalid encoder input — ".to_owned();
                s.append(what);
                s
            },
        }
    }
}

} // verus!
