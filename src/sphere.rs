//! Which root of a ray's quadratic with a sphere counts as the hit.

use vstd::prelude::*;

verus! {

/// `t` is a parameter strictly inside `(lo, hi)`; a NaN is never inside.
pub open spec fn inside(t: Option<i64>, lo: int, hi: int) -> bool {
    match t {
        Some(v) => lo < v < hi,
        None => false,
    }
}

/// The hit among the roots: nothing unless the discriminant is positive,
/// else the near root if it lies inside `(lo, hi)`, else the far root if it
/// does.
pub open spec fn chosen_root(
    discriminant_positive: bool,
    near: Option<i64>,
    far: Option<i64>,
    lo: int,
    hi: int,
) -> Option<i64> {
    if !discriminant_positive {
        None
    } else if inside(near, lo, hi) {
        near
    } else if inside(far, lo, hi) {
        far
    } else {
        None
    }
}

/// Picks the parameter at which a ray hits a sphere from the sign of the
/// quadratic's discriminant and the keys of its two roots, near first
/// (`None` for a root that came out as a NaN): the first root strictly
/// inside `(t_min, t_max)`, if any.
pub fn select_root(
    discriminant_positive: bool,
    near: Option<i64>,
    far: Option<i64>,
    t_min: i64,
    t_max: i64,
) -> (r: Option<i64>)
    ensures
        r == chosen_root(discriminant_positive, near, far, t_min as int, t_max as int),
{
    if !discriminant_positive {
        return None;
    }
    match near {
        Some(t) => if t < t_max && t > t_min {
            return near;
        },
        None => {},
    }
    match far {
        Some(t) => if t < t_max && t > t_min {
            return far;
        },
        None => {},
    }
    None
}

/// With the near root no larger than the far one, the chosen root is the
/// first hit inside the interval: it lies inside it, and lowering the
/// interval's upper end keeps it if it stays below the new end and drops it
/// otherwise.
pub proof fn lemma_chosen_root_is_first_hit(
    discriminant_positive: bool,
    near: Option<i64>,
    far: Option<i64>,
    lo: int,
    hi: int,
    h: int,
)
    requires
        near matches Some(a) ==> (far matches Some(b) ==> a <= b),
        h <= hi,
    ensures
        chosen_root(discriminant_positive, near, far, lo, hi) matches Some(t) ==> lo < t < hi,
        chosen_root(discriminant_positive, near, far, lo, h) == (match chosen_root(
            discriminant_positive,
            near,
            far,
            lo,
            hi,
        ) {
            Some(t) => if t < h {
                Some(t)
            } else {
                None
            },
            None => None,
        }),
{
}

} // verus!
