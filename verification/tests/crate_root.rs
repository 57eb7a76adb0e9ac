use oxideav_ape::header::{CompressionLevel, HEADER_PREFIX_LEN, HeaderPrefix};
use oxideav_ape::{CRATE_NAME, is_ape_magic, registry_name};

#[test]
fn crate_name_constant_is_stable() {
    assert_eq!(CRATE_NAME, "oxideav-ape");
}

#[test]
fn magic_probe_accepts_well_formed_prefix() {
    assert!(is_ape_magic(b"MAC \x50\x0F\xD0\x07"));
}

#[test]
fn magic_probe_rejects_short_buffer() {
    assert!(!is_ape_magic(b"MAC"));
    assert!(!is_ape_magic(b""));
}

#[test]
fn magic_probe_rejects_wrong_magic() {
    assert!(!is_ape_magic(b"OggS\x00\x00\x00\x00"));
    assert!(!is_ape_magic(b"MAC!\x50\x0F\xD0\x07"));
}

#[test]
fn header_prefix_reexport_round_trips() {
    let h = HeaderPrefix {
        version_raw: 3920,
        compression_level: CompressionLevel::Normal,
        header_tail_offset: HEADER_PREFIX_LEN,
    };
    let bytes = h.encode_prefix();
    assert!(is_ape_magic(&bytes));
    let parsed = HeaderPrefix::parse(&bytes).unwrap();
    assert_eq!(parsed, h);
}

#[test]
fn registry_name_matches_crate_name_constant() {
    assert_eq!(registry_name(), CRATE_NAME);
}
