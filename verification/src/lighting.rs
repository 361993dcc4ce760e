//! Names for the day-night lighting wiring.
//!
//! The lighting itself — colour and illuminance interpolation over the time
//! of day — is display-side floating-point work and lives with the renderer,
//! not in this core. What the core shares with that layer are the names
//! below: the marker for the environment subsystem and the tags that tell
//! the two directional lights apart.

use vstd::prelude::*;

verus! {

/// Marker naming the environment (day-night) subsystem in the embedding
/// application's wiring.
#[derive(Clone, Copy, PartialEq, Eq, Structural, Debug, Default)]
pub struct EnvManagerPlugin;

/// Tag of the primary (daytime) directional light.
#[derive(Clone, Copy, PartialEq, Eq, Structural, Debug, Default)]
pub struct MainLight;

/// Tag of the secondary (night) directional light.
#[derive(Clone, Copy, PartialEq, Eq, Structural, Debug, Default)]
pub struct SecondaryLight;

} // verus!
