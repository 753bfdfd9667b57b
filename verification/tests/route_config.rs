use praxis_policy::route_config::{is_false, RouteIdentityConfig, RouteIdentityStep};

#[test]
fn bare_step_has_no_overrides() {
    let s = RouteIdentityStep::bare("corp-jwt");
    assert_eq!(s.name, "corp-jwt");
    assert!(s.config_override.is_none());
}

#[test]
fn config_default_is_empty_additive() {
    let c = RouteIdentityConfig::default();
    assert!(c.steps.is_empty());
    assert!(!c.replace_inherited);
}

#[test]
fn only_an_unset_flag_counts_as_false() {
    assert!(is_false(&false));
    assert!(!is_false(&true));
}

#[test]
fn a_default_step_names_nothing() {
    let s = RouteIdentityStep::default();
    assert!(s.name.is_empty());
    assert!(s.config_override.is_none());
}
