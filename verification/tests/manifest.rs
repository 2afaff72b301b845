use distract_engine::manifest::{
    AssetManifest, PhysicsConfig, StateDefinition, BALLISTIC, GROUNDED, OMNIDIRECTIONAL,
    click_through_outcome, click_through_refusal, default_asset_type, default_initial_state,
    default_true, is_builtin, Capabilities, ClickThroughUnsupported, RenderMode,
    TransitionConfig, WrapMode,
};

#[test]
fn click_through_failure_names_the_cause_and_a_way_out() {
    let err = ClickThroughUnsupported {
        reason: "this display server does not support click-through overlays (NotSupported). \
                 Use backend = 'halfblock'"
            .to_string(),
    };
    let text = err.message();
    assert!(text.contains("click-through"));
    assert!(
        text.contains("halfblock"),
        "must point at a working backend"
    );
}

#[test]
fn the_refusal_quotes_the_window_systems_error() {
    let err = click_through_refusal("NotSupported");
    assert!(err.message().contains("(NotSupported)"));
    assert!(err.message().contains("backend = 'halfblock'"));
    assert!(click_through_outcome(Ok(())).is_ok());
    let refused = click_through_outcome(Err("nope".to_string())).unwrap_err();
    assert!(refused.reason.starts_with(
        "this display server does not support click-through overlays (nope)."
    ));
}

#[test]
fn flat_is_the_default_mode() {
    assert_eq!(RenderMode::default(), RenderMode::Flat);
    assert!(!RenderMode::default().is_voxel());
    assert!(RenderMode::Voxel.is_voxel());
}

#[test]
fn wrapping_is_the_default_edge_behaviour() {
    assert_eq!(WrapMode::default(), WrapMode::Wrap);
}

#[test]
fn the_builtins_are_the_cat_the_crab_and_the_sun() {
    assert!(is_builtin("cat"));
    assert!(is_builtin("crab"));
    assert!(is_builtin("sun"));
    assert!(!is_builtin("dog"));
    assert!(!is_builtin("Cat"));
    assert!(!is_builtin(""));
}

#[test]
fn a_manifest_leaves_out_what_has_a_default() {
    assert!(default_true());
    assert_eq!(default_asset_type(), "sprite");
    assert_eq!(default_initial_state(), "idle");
    assert!(Capabilities::default().locomotion.is_none());
    let transitions = TransitionConfig::default();
    assert!(transitions.on_event.is_empty());
    assert_eq!(transitions.timeout_ms, None);
}

fn physics(locomotion: Option<&str>, path_type: Option<&str>, gravity: f32) -> PhysicsConfig {
    PhysicsConfig {
        locomotion: locomotion.map(|name| name.to_string()),
        path_type: path_type.map(|name| name.to_string()),
        falls: gravity > 0.0,
        gravity: gravity.to_string(),
    }
}

/// A one-state manifest declaring `capabilities` and running `physics`.
fn declared(allowed: Option<&[&str]>, physics: PhysicsConfig) -> AssetManifest {
    AssetManifest {
        name: "declared".to_string(),
        locomotion: None,
        capabilities: Capabilities {
            locomotion: allowed.map(|list| list.iter().map(|s| s.to_string()).collect()),
        },
        states: vec![("only".to_string(), StateDefinition { physics })],
    }
}

#[test]
fn a_manifest_without_capabilities_accepts_any_locomotion() {
    let manifest = declared(None, physics(Some(OMNIDIRECTIONAL), None, 0.0));
    assert!(manifest.validate_capabilities().is_ok());
}

#[test]
fn a_state_outside_the_declared_locomotion_is_rejected() {
    let manifest = declared(Some(&[GROUNDED]), physics(Some(BALLISTIC), None, 0.3));
    let message = manifest
        .validate_capabilities()
        .expect_err("a ballistic state under a grounded-only asset must not load");
    assert!(
        message.contains("only") && message.contains(BALLISTIC),
        "the message must name the offending state and class, got: {message}"
    );
}

#[test]
fn an_exotic_path_requires_omnidirectional_locomotion() {
    let manifest = declared(None, physics(Some(GROUNDED), Some("orbital"), 0.0));
    assert!(manifest.validate_capabilities().is_err());
}

#[test]
fn sine_and_linear_paths_are_allowed_on_the_ground() {
    for path in ["linear", "sine"] {
        let manifest = declared(None, physics(Some(GROUNDED), Some(path), 0.0));
        assert!(
            manifest.validate_capabilities().is_ok(),
            "{path} moves y at most, so it does not need omnidirectional"
        );
    }
}

#[test]
fn declaring_omnidirectional_while_gravity_pulls_is_a_contradiction() {
    let manifest = declared(None, physics(Some(OMNIDIRECTIONAL), None, 0.4));
    assert!(manifest.validate_capabilities().is_err());
}

#[test]
fn an_unknown_locomotion_name_is_rejected() {
    let manifest = declared(None, physics(Some("hovering"), None, 0.0));
    assert!(manifest.validate_capabilities().is_err());
}

#[test]
fn a_state_inherits_the_manifest_locomotion_when_it_names_none() {
    let mut manifest = declared(Some(&[GROUNDED]), physics(None, None, 0.0));
    manifest.locomotion = Some(GROUNDED.to_string());
    assert_eq!(
        manifest.locomotion_for(&manifest.states[0].1),
        GROUNDED,
        "a walking state has no gravity, so without the asset-level default \
         it would derive omnidirectional and violate its own declaration"
    );
    assert!(manifest.validate_capabilities().is_ok());
}

#[test]
fn capability_errors_read_as_the_manifest_author_wrote_them() {
    let unknown = declared(None, physics(Some("hovering"), None, 0.0));
    assert_eq!(
        unknown.validate_capabilities().unwrap_err(),
        "state 'only' declares an unknown locomotion 'hovering'; expected one of grounded, ballistic, omnidirectional"
    );
    let pulled = declared(None, physics(Some(OMNIDIRECTIONAL), None, 0.5));
    assert_eq!(
        pulled.validate_capabilities().unwrap_err(),
        "state 'only' declares 'omnidirectional' locomotion but sets gravity 0.5; gravity brings a floor with it, so the state would clamp to a floor it claims not to have"
    );
    let orbit = declared(None, physics(Some(BALLISTIC), Some("orbital"), 0.0));
    assert_eq!(
        orbit.validate_capabilities().unwrap_err(),
        "state 'only' uses the 'orbital' path, which writes x directly and needs 'omnidirectional' locomotion, but the state is 'ballistic'"
    );
    let undeclared = declared(Some(&[GROUNDED, BALLISTIC]), physics(None, None, 0.0));
    assert_eq!(
        undeclared.validate_capabilities().unwrap_err(),
        "state 'only' uses 'omnidirectional' locomotion, which 'declared' does not declare; capabilities.locomotion allows grounded, ballistic"
    );
}

#[test]
fn the_error_names_the_first_offending_state_by_name() {
    let mut manifest = declared(None, physics(Some("hovering"), None, 0.0));
    manifest.states.insert(
        0,
        (
            "walk".to_string(),
            StateDefinition {
                physics: physics(Some("gliding"), None, 0.0),
            },
        ),
    );
    manifest.states.push((
        "idle".to_string(),
        StateDefinition {
            physics: physics(Some(GROUNDED), None, 0.0),
        },
    ));
    let message = manifest.validate_capabilities().unwrap_err();
    assert!(message.starts_with("state 'only'"), "got: {message}");
}

#[test]
fn gravity_decides_the_derived_locomotion() {
    assert_eq!(physics(None, None, 0.7).effective_locomotion(), GROUNDED);
    assert_eq!(physics(None, None, 0.0).effective_locomotion(), OMNIDIRECTIONAL);
    assert_eq!(physics(Some(BALLISTIC), None, 0.7).effective_locomotion(), BALLISTIC);
}
