//! What the header prefix of a stream selects: the frequency model and
//! the filter cascade.

use vstd::prelude::*;

use crate::error::{Error, Result};
use crate::filter_config::{cascade_of, FilterCascade};
use crate::freq_model::{
    counts_for_version, counts_of, freqs_for_version, freqs_of, FREQ_MODEL_VERSION_SPLIT,
};
use crate::header::{parsed_prefix, HeaderPrefix};

verus! {

/// The frequency model and the filter cascade of a stream.
#[derive(Debug, Clone, PartialEq, Eq)]
pub struct StreamConfig {
    /// The header prefix that the choices were made from.
    pub header: HeaderPrefix,
    pub counts: &'static [u32; 65],
    pub freqs: &'static [u32; 64],
    pub cascade: FilterCascade,
}

impl StreamConfig {
    /// The tables are those of the version and the cascade is that of the
    /// level.
    pub open spec fn wf(&self) -> bool {
        &&& self.counts@ == counts_of(self.header.version_raw)
        &&& self.freqs@ == freqs_of(self.header.version_raw)
        &&& self.cascade == cascade_of(self.header.compression_level)
        &&& self.cascade.wf()
        &&& self.cascade.level == self.header.compression_level
    }

    /// The configuration that `header` selects.
    pub fn from_header(header: HeaderPrefix) -> (r: Self)
        ensures
            r.wf(),
            r.header == header,
    {
        StreamConfig {
            counts: counts_for_version(header.version_raw),
            freqs: freqs_for_version(header.version_raw),
            cascade: FilterCascade::for_level(header.compression_level),
            header,
        }
    }

    /// Parses the header prefix at the start of `bytes` and selects.
    pub fn from_bytes(bytes: &[u8]) -> (r: Result<Self>)
        ensures
            match parsed_prefix(bytes@) {
                Ok(h) => r is Ok && r->Ok_0.wf() && r->Ok_0.header == h,
                Err(e) => r == Err::<StreamConfig, Error>(e),
            },
    {
        match HeaderPrefix::parse(bytes) {
            Err(e) => Err(e),
            Ok(h) => Ok(Self::from_header(h)),
        }
    }

    /// The cumulative frequencies.
    pub fn counts(&self) -> (r: &'static [u32; 65])
        requires
            self.wf(),
        ensures
            r@ == counts_of(self.header.version_raw),
    {
        self.counts
    }

    /// The symbol widths.
    pub fn freqs(&self) -> (r: &'static [u32; 64])
        requires
            self.wf(),
        ensures
            r@ == freqs_of(self.header.version_raw),
    {
        self.freqs
    }

    /// The filter cascade.
    pub fn cascade(&self) -> (r: &FilterCascade)
        requires
            self.wf(),
        ensures
            *r == cascade_of(self.header.compression_level),
            r.wf(),
            r.level == self.header.compression_level,
    {
        &self.cascade
    }

    /// Whether the newer frequency model is selected.
    pub fn uses_ge3990_model(&self) -> (r: bool)
        ensures
            r == (self.header.version_raw >= FREQ_MODEL_VERSION_SPLIT),
    {
        self.header.version_raw >= FREQ_MODEL_VERSION_SPLIT
    }
}

} // verus!
