//! The decisions of the scattering model, taken on real-number keys.

use vstd::prelude::*;

verus! {

/// The key of the real 1.0.
pub const ONE_KEY: i64 = 0x3ff0_0000_0000_0000;

/// How a ray leaves a dielectric surface.
#[derive(Clone, Copy, Debug, PartialEq, Eq, Structural)]
pub enum Bounce {
    Reflect,
    Refract,
}

/// A metal scatters only where the scattered direction leaves the surface:
/// `cosine` is the key of its dot product with the surface normal.
pub fn metal_scatters(cosine: i64) -> (r: bool)
    ensures
        r == (cosine > 0),
{
    cosine > 0
}

/// The dielectric's choice. `bent_sine` is the key of the index ratio times
/// the sine of the incidence angle, `draw` that of a uniform random draw,
/// and `reflectance` that of the Schlick reflectance. Beyond the critical
/// angle the ray must reflect; otherwise it reflects when the draw falls
/// below the reflectance, and refracts else.
pub fn dielectric_bounce(bent_sine: i64, draw: i64, reflectance: i64) -> (r: Bounce)
    ensures
        bent_sine > ONE_KEY ==> r == Bounce::Reflect,
        bent_sine <= ONE_KEY ==> r == (if draw < reflectance {
            Bounce::Reflect
        } else {
            Bounce::Refract
        }),
{
    if bent_sine > ONE_KEY {
        Bounce::Reflect
    } else if draw < reflectance {
        Bounce::Reflect
    } else {
        Bounce::Refract
    }
}

} // verus!
