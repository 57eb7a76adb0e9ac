use oxideav_ape::filter_config::{FilterCascade, MAX_CASCADE_DEPTH, cascade_for_level, filter_stages};
use oxideav_ape::header::CompressionLevel;

#[test]
fn fast_level_has_a_single_no_filter_stage() {
    let c = cascade_for_level(CompressionLevel::Fast);
    assert_eq!(c.len(), 1);
    assert_eq!(c[0].order, 0);
    assert_eq!(c[0].shift, 0);
    assert_eq!(c[0].level_code, 1000);
}

#[test]
fn normal_high_extrahigh_orders_anchor_the_table() {
    let normal = cascade_for_level(CompressionLevel::Normal);
    assert_eq!(normal.len(), 1);
    assert_eq!((normal[0].order, normal[0].shift), (16, 11));

    let high = cascade_for_level(CompressionLevel::High);
    assert_eq!(high.len(), 1);
    assert_eq!((high[0].order, high[0].shift), (64, 11));
}

#[test]
fn extrahigh_is_a_two_stage_cascade() {
    let c = cascade_for_level(CompressionLevel::ExtraHigh);
    assert_eq!(c.len(), 2);
    assert_eq!((c[0].order, c[0].shift), (256, 13));
    assert_eq!((c[1].order, c[1].shift), (32, 10));
    assert_eq!(c[0].filter_index, 0);
    assert_eq!(c[1].filter_index, 1);
}

#[test]
fn insane_is_a_three_stage_cascade_with_1280_lead() {
    let c = cascade_for_level(CompressionLevel::Insane);
    assert_eq!(c.len(), 3);
    assert_eq!((c[0].order, c[0].shift), (1280, 15));
    assert_eq!((c[1].order, c[1].shift), (256, 13));
    assert_eq!((c[2].order, c[2].shift), (16, 11));
    assert_eq!(c[0].order, 1024 + 256);
}

#[test]
fn every_stage_belongs_to_a_documented_level() {
    for s in filter_stages().iter() {
        assert!(
            CompressionLevel::try_from(s.level_code).is_ok(),
            "level_code {} must be a documented profile",
            s.level_code
        );
    }
}

#[test]
fn cascade_depth_never_exceeds_three() {
    for level in CompressionLevel::ALL {
        assert!(cascade_for_level(level).len() <= 3);
    }
    assert_eq!(MAX_CASCADE_DEPTH, 3);
}

#[test]
fn cascade_view_stages_match_the_vec_form() {
    for level in CompressionLevel::ALL {
        let view = FilterCascade::for_level(level);
        assert_eq!(view.level(), level);
        assert_eq!(view.stages(), cascade_for_level(level).as_slice());
        assert_eq!(view.len(), cascade_for_level(level).len());
    }
}

#[test]
fn cascade_view_stage_accessor_indexes_in_application_order() {
    let view = FilterCascade::for_level(CompressionLevel::ExtraHigh);
    assert_eq!(view.stage(0).map(|s| (s.order, s.shift)), Some((256, 13)));
    assert_eq!(view.stage(1).map(|s| (s.order, s.shift)), Some((32, 10)));
    assert_eq!(view.stage(2), None);
}

#[test]
fn cascade_view_total_order_sums_every_stage() {
    assert_eq!(
        FilterCascade::for_level(CompressionLevel::Fast).total_order(),
        0
    );
    assert_eq!(
        FilterCascade::for_level(CompressionLevel::Normal).total_order(),
        16
    );
    assert_eq!(
        FilterCascade::for_level(CompressionLevel::High).total_order(),
        64
    );
    assert_eq!(
        FilterCascade::for_level(CompressionLevel::ExtraHigh).total_order(),
        256 + 32
    );
    assert_eq!(
        FilterCascade::for_level(CompressionLevel::Insane).total_order(),
        1280 + 256 + 16
    );
}

#[test]
fn cascade_view_max_order_is_the_widest_stage() {
    assert_eq!(
        FilterCascade::for_level(CompressionLevel::Fast).max_order(),
        0
    );
    assert_eq!(
        FilterCascade::for_level(CompressionLevel::ExtraHigh).max_order(),
        256
    );
    assert_eq!(
        FilterCascade::for_level(CompressionLevel::Insane).max_order(),
        1280
    );
}

#[test]
fn cascade_view_is_empty_only_for_the_no_filter_fast_level() {
    assert!(FilterCascade::for_level(CompressionLevel::Fast).is_empty());
    for level in [
        CompressionLevel::Normal,
        CompressionLevel::High,
        CompressionLevel::ExtraHigh,
        CompressionLevel::Insane,
    ] {
        let view = FilterCascade::for_level(level);
        assert!(!view.is_empty());
        assert!(view.len() >= MAX_CASCADE_DEPTH.min(1));
        assert!(!view.stages().is_empty());
    }
}

#[test]
fn cascade_view_total_order_agrees_with_summing_the_vec() {
    for level in CompressionLevel::ALL {
        let independent: usize = cascade_for_level(level)
            .iter()
            .map(|s| s.order as usize)
            .sum();
        assert_eq!(FilterCascade::for_level(level).total_order(), independent);
    }
}
