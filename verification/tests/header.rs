use core::str::FromStr;
use oxideav_ape::error::Error;
use oxideav_ape::header::{CompressionLevel, HEADER_PREFIX_LEN, HeaderPrefix, MAGIC};

#[test]
fn magic_is_ascii_mac_space() {
    assert_eq!(&MAGIC, b"MAC ");
}

#[test]
fn parses_v392_normal_per_wiki_worked_example() {
    let bytes = [b'M', b'A', b'C', b' ', 0x50, 0x0F, 0xD0, 0x07];
    let h = HeaderPrefix::parse(&bytes).expect("well-formed prefix");
    assert_eq!(h.version_raw, 3920);
    assert_eq!(h.version(), (3, 92));
    assert_eq!(h.compression_level, CompressionLevel::Normal);
    assert_eq!(h.header_tail_offset, 8);
}

#[test]
fn all_documented_compression_levels_roundtrip() {
    for (raw, expected, label) in [
        (1000u16, CompressionLevel::Fast, "fast"),
        (2000, CompressionLevel::Normal, "normal"),
        (3000, CompressionLevel::High, "high"),
        (4000, CompressionLevel::ExtraHigh, "extra high"),
        (5000, CompressionLevel::Insane, "insane"),
    ] {
        let parsed = CompressionLevel::from_u16(raw).expect("documented level");
        assert_eq!(parsed, expected);
        assert_eq!(parsed.as_u16(), raw);
        assert_eq!(parsed.label(), label);
    }
}

#[test]
fn rejects_unknown_compression_level() {
    let bytes = [b'M', b'A', b'C', b' ', 0x50, 0x0F, 0xD2, 0x04];
    assert_eq!(
        HeaderPrefix::parse(&bytes).unwrap_err(),
        Error::UnknownCompressionLevel(1234)
    );
}

#[test]
fn rejects_missing_magic() {
    let bytes = [b'M', b'A', b'C', b'!', 0x50, 0x0F, 0xD0, 0x07];
    assert_eq!(
        HeaderPrefix::parse(&bytes).unwrap_err(),
        Error::InvalidMagic
    );
}

#[test]
fn rejects_truncated_prefix() {
    for len in 0..HEADER_PREFIX_LEN {
        let buf = vec![0u8; len];
        assert_eq!(HeaderPrefix::parse(&buf).unwrap_err(), Error::Truncated);
    }
}

#[test]
fn encode_prefix_roundtrips_through_parse() {
    let original = HeaderPrefix {
        version_raw: 3970,
        compression_level: CompressionLevel::High,
        header_tail_offset: HEADER_PREFIX_LEN,
    };
    let bytes = original.encode_prefix();
    let parsed = HeaderPrefix::parse(&bytes).expect("encoded prefix round-trips");
    assert_eq!(parsed, original);
    assert_eq!(parsed.version(), (3, 97));
}

#[test]
fn extra_bytes_after_prefix_are_ignored_phase1() {
    let mut bytes = vec![b'M', b'A', b'C', b' ', 0x50, 0x0F, 0xD0, 0x07];
    bytes.extend(std::iter::repeat(0xAA).take(16));
    let h = HeaderPrefix::parse(&bytes).expect("trailing bytes ignored");
    assert_eq!(h.header_tail_offset, 8);
    assert_eq!(
        &bytes[h.header_tail_offset..h.header_tail_offset + 4],
        &[0xAA; 4]
    );
}

#[test]
fn compression_level_display_pairs_label_and_raw() {
    assert_eq!(CompressionLevel::Fast.display_text(), "fast (1000)");
    assert_eq!(CompressionLevel::Normal.display_text(), "normal (2000)");
    assert_eq!(CompressionLevel::High.display_text(), "high (3000)");
    assert_eq!(
        CompressionLevel::ExtraHigh.display_text(),
        "extra high (4000)"
    );
    assert_eq!(CompressionLevel::Insane.display_text(), "insane (5000)");
}

#[test]
fn header_prefix_display_renders_wiki_worked_example() {
    let h = HeaderPrefix {
        version_raw: 3920,
        compression_level: CompressionLevel::Normal,
        header_tail_offset: HEADER_PREFIX_LEN,
    };
    assert_eq!(h.display_text(), "MAC v3.92 (raw=3920) normal (2000)");
}

#[test]
fn header_prefix_display_keeps_raw_field_verbatim() {
    let h = HeaderPrefix {
        version_raw: 3925,
        compression_level: CompressionLevel::Fast,
        header_tail_offset: HEADER_PREFIX_LEN,
    };
    assert_eq!(h.display_text(), "MAC v3.92 (raw=3925) fast (1000)");
}

#[test]
fn compression_level_all_lists_the_five_documented_profiles_in_doc_order() {
    let raws: Vec<u16> = CompressionLevel::ALL.iter().map(|l| l.as_u16()).collect();
    assert_eq!(raws, vec![1000, 2000, 3000, 4000, 5000]);
    assert_eq!(CompressionLevel::ALL.len(), 5);
}

#[test]
fn compression_level_iter_walks_the_documented_set_once() {
    let collected: Vec<CompressionLevel> = CompressionLevel::iter().into_iter().collect();
    assert_eq!(collected.as_slice(), &CompressionLevel::ALL[..]);
    let twice: usize = CompressionLevel::iter().len() + CompressionLevel::iter().len();
    assert_eq!(twice, 10);
}

#[test]
fn try_from_u16_mirrors_from_u16() {
    for raw in [1000u16, 2000, 3000, 4000, 5000] {
        let via_trait = <CompressionLevel as TryFrom<u16>>::try_from(raw).unwrap();
        let via_inherent = CompressionLevel::from_u16(raw).unwrap();
        assert_eq!(via_trait, via_inherent);
    }
    assert_eq!(
        <CompressionLevel as TryFrom<u16>>::try_from(1234).unwrap_err(),
        Error::UnknownCompressionLevel(1234)
    );
}

#[test]
fn from_compression_level_into_u16_round_trips() {
    for level in CompressionLevel::ALL {
        let raw: u16 = u16::from(level);
        assert_eq!(raw, level.as_u16());
        let back: CompressionLevel = TryFrom::try_from(raw).unwrap();
        assert_eq!(back, level);
    }
}

#[test]
fn from_str_parses_every_documented_label() {
    for level in CompressionLevel::ALL {
        let parsed = CompressionLevel::from_str(level.label()).unwrap();
        assert_eq!(parsed, level);
    }
}

#[test]
fn from_str_is_case_insensitive_and_trims_whitespace() {
    assert_eq!(
        CompressionLevel::from_str("FAST").unwrap(),
        CompressionLevel::Fast
    );
    assert_eq!(
        CompressionLevel::from_str("Normal").unwrap(),
        CompressionLevel::Normal
    );
    assert_eq!(
        CompressionLevel::from_str("Extra High").unwrap(),
        CompressionLevel::ExtraHigh
    );
    assert_eq!(
        CompressionLevel::from_str("  insane\n").unwrap(),
        CompressionLevel::Insane
    );
}

#[test]
fn from_str_rejects_undocumented_label() {
    assert_eq!(
        CompressionLevel::from_str("turbo").unwrap_err(),
        Error::UnknownCompressionLabel
    );
    assert_eq!(
        CompressionLevel::from_str("2000").unwrap_err(),
        Error::UnknownCompressionLabel
    );
    assert_eq!(
        CompressionLevel::from_str("").unwrap_err(),
        Error::UnknownCompressionLabel
    );
    assert_eq!(
        CompressionLevel::from_str("   ").unwrap_err(),
        Error::UnknownCompressionLabel
    );
}

#[test]
fn from_str_label_to_display_round_trips() {
    for level in CompressionLevel::ALL {
        let displayed = level.display_text();
        let (label, rest) = displayed.split_once(" (").expect("space-paren split");
        assert!(rest.ends_with(')'));
        let parsed = CompressionLevel::from_str(label).unwrap();
        assert_eq!(parsed, level);
    }
}

#[test]
fn single_byte_mutation_of_worked_example_is_always_well_defined() {
    let baseline = [b'M', b'A', b'C', b' ', 0x50, 0x0F, 0xD0, 0x07];
    for offset in 0..HEADER_PREFIX_LEN {
        for delta in 1u16..=255 {
            let mut mutated = baseline;
            mutated[offset] = baseline[offset].wrapping_add(delta as u8);
            match HeaderPrefix::parse(&mutated) {
                Ok(_) => {}
                Err(Error::InvalidMagic) => {
                    assert!(offset < 4, "InvalidMagic at offset {offset}");
                }
                Err(Error::UnknownCompressionLevel(_)) => {
                    assert!(offset >= 6, "UnknownCompressionLevel at offset {offset}");
                }
                Err(Error::Truncated) => panic!(
                    "Truncated reported for an 8-byte buffer at offset {offset}"
                ),
                Err(Error::UnknownCompressionLabel) => panic!(
                    "UnknownCompressionLabel leaked out of parse() at offset {offset}; that variant belongs to FromStr, not the binary prefix parser"
                ),
                Err(Error::NotImplemented) => panic!(
                    "NotImplemented leaked out of parse() at offset {offset}; Phase 1 reserves this for the per-version tail parser"
                ),
                Err(other) => panic!("{other:?} leaked out of parse() at offset {offset}"),
            }
        }
    }
}
