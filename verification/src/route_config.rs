//! Route-level identity configuration: the parsed shape of a route's
//! `authentication:` block.
//!
//! The block binds plugins only for the `identity.resolve` hook on its route.
//! It is written either as a list of steps (always additive) or as an object
//! with `replace_inherited:` and `steps:`. Each step names a plugin, optionally
//! with a per-call configuration override.
use vstd::prelude::*;

verus! {

/// A JSON value as `serde_json` holds it.
#[verifier::external_type_specification]
#[verifier::external_body]
pub struct ExJsonValue(serde_json::Value);

/// One step in the identity phase: a plugin registered under
/// `identity.resolve`, optionally with a per-call configuration override.
#[derive(Debug, Clone)]
pub struct RouteIdentityStep {
    /// Plugin name; must match a top-level `plugins:` entry.
    pub name: String,
    /// Configuration override for this step only; `None` means the plugin's
    /// configured defaults.
    pub config_override: Option<serde_json::Value>,
}

impl RouteIdentityStep {
    /// A bare step that names a plugin with no overrides.
    pub fn bare(name: &str) -> (r: RouteIdentityStep)
        ensures
            r.name@ == name@,
            r.config_override is None,
    {
        RouteIdentityStep { name: String::from_str(name), config_override: None }
    }
}

impl Default for RouteIdentityStep {
    fn default() -> (r: RouteIdentityStep)
        ensures
            r.name@ == Seq::<char>::empty(),
            r.config_override is None,
    {
        RouteIdentityStep { name: String::new(), config_override: None }
    }
}

/// A route's parsed `authentication:` block.
///
/// Inheritance appends each layer's steps to the running list; a layer with
/// `replace_inherited` drops what accumulated before it.
#[derive(Debug, Clone)]
pub struct RouteIdentityConfig {
    /// Ordered identity steps; an empty list is valid.
    pub steps: Vec<RouteIdentityStep>,
    /// When true, this block replaces inherited steps instead of appending.
    pub replace_inherited: bool,
}

impl Default for RouteIdentityConfig {
    /// The empty, additive block.
    fn default() -> (r: RouteIdentityConfig)
        ensures
            r.steps@.len() == 0,
            !r.replace_inherited,
    {
        RouteIdentityConfig { steps: Vec::new(), replace_inherited: false }
    }
}

/// Whether a flag is unset: the serialized form omits `replace_inherited`
/// exactly when this holds, since `false` is its default.
pub fn is_false(b: &bool) -> (r: bool)
    ensures
        r == !*b,
{
    !*b
}

} // verus!
