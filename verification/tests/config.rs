use oxideav_ape::cascade::StageState;
use oxideav_ape::config::StreamConfig;
use oxideav_ape::error::Error;
use oxideav_ape::filter_config::FilterCascade;
use oxideav_ape::freq_model::{COUNTS_GE3990, COUNTS_LE3980, FREQS_GE3990, FREQS_LE3980};
use oxideav_ape::header::{CompressionLevel, HeaderPrefix};

#[test]
fn worked_example_selects_older_model_and_normal_cascade() {
    let cfg = StreamConfig::from_bytes(b"MAC \x50\x0F\xD0\x07").unwrap();
    assert!(cfg.counts() == &COUNTS_LE3980);
    assert!(cfg.freqs() == &FREQS_LE3980);
    assert!(!cfg.uses_ge3990_model());
    assert_eq!(cfg.header.compression_level, CompressionLevel::Normal);
    assert_eq!(cfg.cascade().len(), 1);
    assert_eq!(cfg.cascade().stage(0).unwrap().order, 16);
}

#[test]
fn version_split_dispatches_at_exactly_3990() {
    let below = StreamConfig::from_header(HeaderPrefix::new(3989, CompressionLevel::Fast));
    let at = StreamConfig::from_header(HeaderPrefix::new(3990, CompressionLevel::Fast));
    assert!(below.counts() == &COUNTS_LE3980);
    assert!(at.counts() == &COUNTS_GE3990);
    assert!(below.freqs() == &FREQS_LE3980);
    assert!(at.freqs() == &FREQS_GE3990);
    assert!(!below.uses_ge3990_model());
    assert!(at.uses_ge3990_model());
}

#[test]
fn every_documented_level_yields_its_pinned_cascade() {
    for level in CompressionLevel::ALL {
        let cfg = StreamConfig::from_header(HeaderPrefix::new(3990, level));
        assert_eq!(cfg.cascade(), &FilterCascade::for_level(level));
        let states = StageState::for_cascade(cfg.cascade());
        assert_eq!(states.len(), cfg.cascade().len());
    }
}

#[test]
fn parse_errors_pass_through_unchanged() {
    assert_eq!(
        StreamConfig::from_bytes(b"MAC \x50\x0F").unwrap_err(),
        Error::Truncated
    );
    assert_eq!(
        StreamConfig::from_bytes(b"OggSxxxx").unwrap_err(),
        Error::InvalidMagic
    );
    assert_eq!(
        StreamConfig::from_bytes(b"MAC \x50\x0F\x39\x30").unwrap_err(),
        Error::UnknownCompressionLevel(u16::from_le_bytes([0x39, 0x30]))
    );
}

#[test]
fn counts_and_freqs_selections_stay_paired() {
    for version in [0u16, 3920, 3989, 3990, 3999, u16::MAX] {
        let cfg =
            StreamConfig::from_header(HeaderPrefix::new(version, CompressionLevel::Insane));
        let same_side = (cfg.counts() == &COUNTS_LE3980
            && cfg.freqs() == &FREQS_LE3980)
            || (cfg.counts() == &COUNTS_GE3990
                && cfg.freqs() == &FREQS_GE3990);
        assert!(same_side, "version {version}");
    }
}
