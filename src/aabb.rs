//! Axis-aligned bounding boxes over real-number keys, and the slab test
//! that decides whether a ray meets one.

use crate::key::{max_key, min_key};
use vstd::prelude::*;

verus! {

/// A point whose coordinates are real-number keys.
#[derive(Clone, Copy, Debug, PartialEq, Eq, Structural)]
pub struct Point3 {
    pub x: i64,
    pub y: i64,
    pub z: i64,
}

impl Point3 {
    pub fn new(x: i64, y: i64, z: i64) -> (r: Point3)
        ensures
            r == (Point3 { x, y, z }),
    {
        Point3 { x, y, z }
    }

    /// The coordinate along `axis`: 0 for x, 1 for y, 2 for z.
    pub open spec fn at(&self, axis: int) -> int {
        if axis == 0 {
            self.x as int
        } else if axis == 1 {
            self.y as int
        } else {
            self.z as int
        }
    }

    pub fn axis(&self, axis: usize) -> (r: i64)
        requires
            axis < 3,
        ensures
            r == self.at(axis as int),
    {
        if axis == 0 {
            self.x
        } else if axis == 1 {
            self.y
        } else {
            self.z
        }
    }
}

/// `a` lies below or on `b` along every axis.
pub open spec fn below(a: Point3, b: Point3) -> bool {
    a.x <= b.x && a.y <= b.y && a.z <= b.z
}

/// The componentwise minimum of two points.
pub open spec fn meet(a: Point3, b: Point3) -> Point3 {
    Point3 {
        x: if a.x < b.x { a.x } else { b.x },
        y: if a.y < b.y { a.y } else { b.y },
        z: if a.z < b.z { a.z } else { b.z },
    }
}

/// The componentwise maximum of two points.
pub open spec fn join(a: Point3, b: Point3) -> Point3 {
    Point3 {
        x: if a.x > b.x { a.x } else { b.x },
        y: if a.y > b.y { a.y } else { b.y },
        z: if a.z > b.z { a.z } else { b.z },
    }
}

/// A box given by its lowest and highest corner.
#[derive(Clone, Copy, Debug, PartialEq, Eq, Structural)]
pub struct AABB {
    pub lo: Point3,
    pub hi: Point3,
}

/// `outer` encloses `inner`.
pub open spec fn contains(outer: AABB, inner: AABB) -> bool {
    below(outer.lo, inner.lo) && below(inner.hi, outer.hi)
}

/// The box that `surrounding_box` makes of `a` and `b`.
pub open spec fn surrounding(a: AABB, b: AABB) -> AABB {
    AABB { lo: meet(a.lo, b.lo), hi: join(a.hi, b.hi) }
}

impl AABB {
    /// The lowest corner lies below or on the highest along every axis.
    pub open spec fn wf(&self) -> bool {
        below(self.lo, self.hi)
    }

    pub fn new(min: &Point3, max: &Point3) -> (r: AABB)
        requires
            below(*min, *max),
        ensures
            r.lo == *min,
            r.hi == *max,
            r.wf(),
    {
        AABB { lo: *min, hi: *max }
    }

    pub fn min(&self) -> (r: Point3)
        ensures
            r == self.lo,
    {
        self.lo
    }

    pub fn max(&self) -> (r: Point3)
        ensures
            r == self.hi,
    {
        self.hi
    }

    /// The componentwise minimum of the lowest corners and maximum of the
    /// highest ones.
    pub fn surrounding_box(box_0: &AABB, box_1: &AABB) -> (r: AABB)
        ensures
            r == surrounding(*box_0, *box_1),
    {
        let small = Point3::new(
            min_key(box_0.lo.x, box_1.lo.x),
            min_key(box_0.lo.y, box_1.lo.y),
            min_key(box_0.lo.z, box_1.lo.z),
        );
        let big = Point3::new(
            max_key(box_0.hi.x, box_1.hi.x),
            max_key(box_0.hi.y, box_1.hi.y),
            max_key(box_0.hi.z, box_1.hi.z),
        );
        AABB { lo: small, hi: big }
    }
}

/// The surrounding box of two boxes encloses both, and lies inside every
/// box that encloses both.
pub proof fn lemma_surrounding_box_tightest(a: AABB, b: AABB, c: AABB)
    requires
        a.wf(),
        b.wf(),
    ensures
        surrounding(a, b).wf(),
        contains(surrounding(a, b), a),
        contains(surrounding(a, b), b),
        contains(c, a) && contains(c, b) ==> contains(c, surrounding(a, b)),
{
}

/// One axis of the slab test: the keys of the ray parameters at which it
/// crosses the box's lower and upper planes on that axis (`None` where the
/// quotient is a NaN), and whether the ray runs toward decreasing
/// coordinates there, so that the upper plane is met first.
#[derive(Clone, Copy, Debug, PartialEq, Eq, Structural)]
pub struct Slab {
    pub enter: Option<i64>,
    pub exit: Option<i64>,
    pub reversed: bool,
}

/// The parameter at which the ray meets the slab first.
pub open spec fn near(s: Slab) -> Option<i64> {
    if s.reversed {
        s.exit
    } else {
        s.enter
    }
}

/// The parameter at which the ray leaves the slab.
pub open spec fn far(s: Slab) -> Option<i64> {
    if s.reversed {
        s.enter
    } else {
        s.exit
    }
}

/// The lower end of the interval, raised to `t` where `t` is larger.
pub open spec fn raise(lo: int, t: Option<i64>) -> int {
    match t {
        Some(v) => if v > lo {
            v as int
        } else {
            lo
        },
        None => lo,
    }
}

/// The upper end of the interval, lowered to `t` where `t` is smaller.
pub open spec fn lower(hi: int, t: Option<i64>) -> int {
    match t {
        Some(v) => if v < hi {
            v as int
        } else {
            hi
        },
        None => hi,
    }
}

/// The slab test from axis `i` on: the interval `(lo, hi)` is narrowed by
/// each slab in turn, and the ray misses once it is empty.
pub open spec fn slabs_hit_from(slabs: Seq<Slab>, i: int, lo: int, hi: int) -> bool
    decreases slabs.len() - i,
{
    if i < 0 || i >= slabs.len() {
        true
    } else {
        let lo2 = raise(lo, near(slabs[i]));
        let hi2 = lower(hi, far(slabs[i]));
        if hi2 <= lo2 {
            false
        } else {
            slabs_hit_from(slabs, i + 1, lo2, hi2)
        }
    }
}

/// Whether a ray whose crossings of the three slabs of a box are `slabs`
/// meets the box for some parameter in `(t_min, t_max)`.
pub fn slab_hit(slabs: &[Slab; 3], t_min: i64, t_max: i64) -> (r: bool)
    ensures
        r == slabs_hit_from(slabs@, 0, t_min as int, t_max as int),
{
    let mut lo: i64 = t_min;
    let mut hi: i64 = t_max;
    let mut i: usize = 0;
    while i < 3
        invariant
            0 <= i <= 3,
            slabs@.len() == 3,
            slabs_hit_from(slabs@, 0, t_min as int, t_max as int) == slabs_hit_from(
                slabs@,
                i as int,
                lo as int,
                hi as int,
            ),
        decreases 3 - i,
    {
        let s = slabs[i];
        let (near_t, far_t) = if s.reversed {
            (s.exit, s.enter)
        } else {
            (s.enter, s.exit)
        };
        match near_t {
            Some(t) => if t > lo {
                lo = t;
            },
            None => {},
        }
        match far_t {
            Some(t) => if t < hi {
                hi = t;
            },
            None => {},
        }
        if hi <= lo {
            return false;
        }
        i = i + 1;
    }
    true
}

/// `n` is the negation of `t`, NaN staying NaN.
pub open spec fn negated(n: Option<i64>, t: Option<i64>) -> bool {
    match (n, t) {
        (None, None) => true,
        (Some(a), Some(b)) => a == -b,
        _ => false,
    }
}

/// `r` is slab `s` as the ray with the opposite direction crosses it: each
/// crossing parameter negated, and the order of the planes swapped.
pub open spec fn reversed_slab(r: Slab, s: Slab) -> bool {
    negated(r.enter, s.enter) && negated(r.exit, s.exit) && r.reversed == !s.reversed
}

/// Reversing a ray's direction, and with it the interval of parameters,
/// leaves the slab test's verdict unchanged.
pub proof fn lemma_slab_hit_reversed(slabs: Seq<Slab>, rev: Seq<Slab>, i: int, lo: int, hi: int)
    requires
        rev.len() == slabs.len(),
        forall|j: int| 0 <= j < slabs.len() ==> reversed_slab(#[trigger] rev[j], slabs[j]),
    ensures
        slabs_hit_from(rev, i, -hi, -lo) == slabs_hit_from(slabs, i, lo, hi),
    decreases slabs.len() - i,
{
    if 0 <= i < slabs.len() {
        let s = slabs[i];
        let r = rev[i];
        assert(reversed_slab(r, s));
        let lo2 = raise(lo, near(s));
        let hi2 = lower(hi, far(s));
        assert(raise(-hi, near(r)) == -hi2);
        assert(lower(-lo, far(r)) == -lo2);
        lemma_slab_hit_reversed(slabs, rev, i + 1, lo2, hi2);
    }
}

} // verus!
