use distract_engine::placement::{
    from_args, placement_on, resolve, ConfiguredPlacement, MonitorGeometry, PlacementRequest,
    FALLBACK_WIDTH, MAX_HEIGHT, MAX_WIDTH, MIN_HEIGHT, MIN_WIDTH,
};

const LAPTOP: MonitorGeometry = MonitorGeometry {
    x: 0,
    y: 0,
    width: 1512,
    height: 982,
};
const EXTERNAL: MonitorGeometry = MonitorGeometry {
    x: 1512,
    y: 0,
    width: 2560,
    height: 1440,
};

fn args(list: &[&str]) -> Vec<String> {
    list.iter().map(|s| s.to_string()).collect()
}

#[test]
fn the_detected_display_wins_when_nothing_is_configured() {
    let monitors = [LAPTOP, EXTERNAL];
    let (placement, warning) = resolve(&PlacementRequest {
        configured: None,
        focused: Some(EXTERNAL),
        monitors: &monitors,
    });

    assert_eq!(placement.x, 1512, "the overlay must follow the terminal");
    assert_eq!(placement.width, 2560);
    assert!(warning.is_none(), "detection succeeded, so nothing to warn");
}

#[test]
fn undetectable_falls_back_to_primary_and_names_the_config_key() {
    let monitors = [LAPTOP, EXTERNAL];
    let (placement, warning) = resolve(&PlacementRequest {
        configured: None,
        focused: None,
        monitors: &monitors,
    });

    assert_eq!(placement.x, 0, "primary is the documented fallback");
    let warning = warning.expect("a guessed display must warn");
    assert!(
        warning.contains("overlay = { monitor"),
        "the warning must name the key that fixes it; got {warning}"
    );
}

#[test]
fn configured_monitor_overrides_detection() {
    let monitors = [LAPTOP, EXTERNAL];
    let (placement, warning) = resolve(&PlacementRequest {
        configured: Some(ConfiguredPlacement::Monitor(0)),
        focused: Some(EXTERNAL),
        monitors: &monitors,
    });

    assert_eq!(placement.x, 0, "the user's choice beats detection");
    assert!(warning.is_none());
}

#[test]
fn an_out_of_range_monitor_warns_with_the_valid_range() {
    let monitors = [LAPTOP];
    let (placement, warning) = resolve(&PlacementRequest {
        configured: Some(ConfiguredPlacement::Monitor(4)),
        focused: None,
        monitors: &monitors,
    });

    assert_eq!(placement.x, 0);
    let warning = warning.expect("an impossible index must warn");
    assert!(warning.contains("1 display"), "got {warning}");
    assert!(warning.contains("0..0"), "got {warning}");
}

#[test]
fn an_explicit_position_is_used_verbatim_and_sized_from_its_host_display() {
    let monitors = [LAPTOP, EXTERNAL];
    let (placement, warning) = resolve(&PlacementRequest {
        configured: Some(ConfiguredPlacement::Position { x: 1600, y: 40 }),
        focused: Some(LAPTOP),
        monitors: &monitors,
    });

    assert_eq!((placement.x, placement.y), (1600, 40));
    assert_eq!(
        placement.width, 2560,
        "the size must come from the display the point lands on"
    );
    assert!(warning.is_none());
}

#[test]
fn a_headless_system_with_no_displays_still_yields_a_window() {
    let (placement, warning) = resolve(&PlacementRequest {
        configured: None,
        focused: None,
        monitors: &[],
    });

    assert_eq!(placement.width, FALLBACK_WIDTH);
    assert!(warning.is_some());
}

#[test]
fn a_display_smaller_than_the_minimum_is_clamped_up() {
    let tiny = MonitorGeometry {
        x: 10,
        y: 20,
        width: 640,
        height: 480,
    };
    let monitors = [tiny];
    let (placement, _) = resolve(&PlacementRequest {
        configured: None,
        focused: Some(tiny),
        monitors: &monitors,
    });

    assert_eq!((placement.width, placement.height), (MIN_WIDTH, MIN_HEIGHT));
    assert_eq!((placement.x, placement.y), (10, 20));
}

#[test]
fn args_parse_both_forms() {
    assert_eq!(
        from_args(args(&["--overlay-monitor", "2"])).unwrap(),
        Some(ConfiguredPlacement::Monitor(2))
    );
    assert_eq!(
        from_args(args(&["--overlay-position", "100,-40"])).unwrap(),
        Some(ConfiguredPlacement::Position { x: 100, y: -40 })
    );
    assert_eq!(from_args(args(&["--unrelated"])).unwrap(), None);
}

#[test]
fn a_malformed_argument_is_an_error_not_a_silent_default() {
    for bad in [
        args(&["--overlay-monitor", "left"]),
        args(&["--overlay-monitor"]),
        args(&["--overlay-position", "100"]),
        args(&["--overlay-position", "100,up"]),
    ] {
        let described = format!("{bad:?}");
        assert!(
            from_args(bad).is_err(),
            "{described} must be rejected, not ignored"
        );
    }
}

#[test]
fn a_huge_display_is_clamped_down_to_the_maximum() {
    let wall = MonitorGeometry {
        x: 0,
        y: 0,
        width: 7680,
        height: 4320,
    };
    let placement = placement_on(&wall);
    assert_eq!((placement.width, placement.height), (MAX_WIDTH, MAX_HEIGHT));
}

#[test]
fn a_point_on_no_display_is_sized_from_the_primary() {
    let monitors = [LAPTOP, EXTERNAL];
    let (placement, warning) = resolve(&PlacementRequest {
        configured: Some(ConfiguredPlacement::Position { x: -5000, y: 0 }),
        focused: Some(EXTERNAL),
        monitors: &monitors,
    });
    assert_eq!((placement.x, placement.y), (-5000, 0));
    assert_eq!(placement.width, 1512);
    assert!(warning.is_none());
}

#[test]
fn the_far_edges_of_a_display_are_outside_it() {
    assert!(LAPTOP.contains(0, 0));
    assert!(LAPTOP.contains(1511, 981));
    assert!(!LAPTOP.contains(1512, 0));
    assert!(!LAPTOP.contains(0, 982));
    assert!(!LAPTOP.contains(-1, 0));
}
