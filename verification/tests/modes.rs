use koji_algorithms::modes::{effective_sort, CalculationMode, ClusterMode, SortBy};

#[test]
fn calc_mode_canonical_names_recognized() {
    assert_eq!(
        CalculationMode::from_str_opt("radius"),
        Some(CalculationMode::Radius)
    );
    assert_eq!(
        CalculationMode::from_str_opt("s2"),
        Some(CalculationMode::S2)
    );
}

#[test]
fn calc_mode_unknown_string_becomes_custom() {
    let v = CalculationMode::from_str_opt("my_calc").unwrap();
    assert!(matches!(v, CalculationMode::Custom(ref s) if s == "my_calc"));
}

#[test]
fn calc_mode_display_canonical() {
    assert_eq!(CalculationMode::Radius.to_string(), "radius");
    assert_eq!(CalculationMode::S2.to_string(), "s2");
}

#[test]
fn cluster_mode_canonical_names_recognized() {
    for (s, expected) in [
        ("honeycomb", ClusterMode::Honeycomb),
        ("fastest", ClusterMode::Fastest),
        ("fast", ClusterMode::Fast),
        ("balanced", ClusterMode::Balanced),
        ("better", ClusterMode::Better),
        ("best", ClusterMode::Best),
    ] {
        let parsed = ClusterMode::from_str_opt(s);
        assert_eq!(parsed, Some(expected), "failed for '{s}'");
    }
}

#[test]
fn cluster_mode_unknown_string_becomes_custom() {
    let v = ClusterMode::from_str_opt("my_plugin").unwrap();
    assert!(matches!(v, ClusterMode::Custom(ref s) if s == "my_plugin"));
}

#[test]
fn custom_equality() {
    assert_eq!(
        ClusterMode::Custom("x".into()),
        ClusterMode::Custom("x".into())
    );
    assert_ne!(
        ClusterMode::Custom("x".into()),
        ClusterMode::Custom("y".into())
    );
}

#[test]
fn cluster_mode_display_canonical() {
    assert_eq!(ClusterMode::Fastest.to_string(), "fastest");
    assert_eq!(ClusterMode::Best.to_string(), "best");
    assert_eq!(ClusterMode::Honeycomb.to_string(), "honeycomb");
}

#[test]
fn canonical_names_round_trip() {
    for (s, expected) in [
        ("unset", SortBy::Unset),
        ("geohash", SortBy::GeoHash),
        ("pointcount", SortBy::PointCount),
        ("random", SortBy::Random),
        ("s2cell", SortBy::S2Cell),
        ("latlon", SortBy::LatLon),
    ] {
        let parsed = SortBy::from_str_opt(s);
        assert_eq!(parsed, Some(expected), "failed for '{s}'");
    }
}

#[test]
fn aliases_parse_correctly() {
    assert_eq!(SortBy::from_str_opt(""), Some(SortBy::Unset));
    assert_eq!(SortBy::from_str_opt("none"), Some(SortBy::Unset));
    assert_eq!(SortBy::from_str_opt("s2"), Some(SortBy::S2Cell));
    assert_eq!(
        SortBy::from_str_opt("point_count"),
        Some(SortBy::PointCount)
    );
    assert_eq!(
        SortBy::from_str_opt("cluster_count"),
        Some(SortBy::PointCount)
    );
    assert_eq!(
        SortBy::from_str_opt("clustercount"),
        Some(SortBy::PointCount)
    );
}

#[test]
fn sort_by_unknown_string_becomes_custom() {
    let s = SortBy::from_str_opt("my_plugin");
    assert!(matches!(s, Some(SortBy::Custom(ref v)) if v == "my_plugin"));
}

#[test]
fn equality_of_same_custom() {
    let a = SortBy::Custom("foo".into());
    let b = SortBy::Custom("foo".into());
    assert_eq!(a, b);
}

#[test]
fn inequality_of_different_custom() {
    let a = SortBy::Custom("foo".into());
    let b = SortBy::Custom("bar".into());
    assert_ne!(a, b);
}

#[test]
fn sort_by_display_canonical() {
    assert_eq!(SortBy::Unset.to_string(), "unset");
    assert_eq!(SortBy::GeoHash.to_string(), "geohash");
    assert_eq!(SortBy::S2Cell.to_string(), "s2cell");
    assert_eq!(SortBy::LatLon.to_string(), "latlon");
}

#[test]
fn tsp_hybrid_parses_and_displays() {
    assert_eq!(SortBy::from_str_opt("tsphybrid"), Some(SortBy::TspHybrid));
    assert_eq!(SortBy::from_str_opt("hybrid"), Some(SortBy::TspHybrid));
    assert_eq!(SortBy::TspHybrid.to_string(), "tsphybrid");
}

#[test]
fn effective_sort_route_unset_defaults_to_tsp() {
    assert_eq!(effective_sort(true, SortBy::Unset), SortBy::Tsp);
}

#[test]
fn effective_sort_cluster_unset_stays_unset() {
    assert_eq!(effective_sort(false, SortBy::Unset), SortBy::Unset);
}

#[test]
fn effective_sort_route_explicit_is_untouched() {
    assert_eq!(effective_sort(true, SortBy::S2Cell), SortBy::S2Cell);
}

#[test]
fn mode_names_read_back_to_the_same_mode() {
    for m in [
        SortBy::Unset,
        SortBy::GeoHash,
        SortBy::PointCount,
        SortBy::Random,
        SortBy::S2Cell,
        SortBy::LatLon,
        SortBy::Tsp,
        SortBy::TspHybrid,
        SortBy::Custom("my_plugin".into()),
    ] {
        assert_eq!(SortBy::from_str_opt(&m.to_string()), Some(m.clone()));
    }
    for m in [
        ClusterMode::Honeycomb,
        ClusterMode::Fastest,
        ClusterMode::Fast,
        ClusterMode::Balanced,
        ClusterMode::Better,
        ClusterMode::Best,
        ClusterMode::Custom("x".into()),
    ] {
        assert_eq!(ClusterMode::from_str_opt(&m.to_string()), Some(m.clone()));
    }
    for m in [
        CalculationMode::Radius,
        CalculationMode::S2,
        CalculationMode::Custom("x".into()),
    ] {
        assert_eq!(CalculationMode::from_str_opt(&m.to_string()), Some(m.clone()));
    }
}

#[test]
fn custom_named_like_an_alias_reads_back_as_the_builtin() {
    let m = SortBy::Custom("none".into());
    assert_eq!(SortBy::from_str_opt(&m.to_string()), Some(SortBy::Unset));
}

#[test]
fn effective_sort_applied_twice_is_applied_once() {
    let once = effective_sort(true, SortBy::Unset);
    assert_eq!(effective_sort(true, once.clone()), once);
    assert_eq!(effective_sort(false, SortBy::Custom("p".into())), SortBy::Custom("p".into()));
}
