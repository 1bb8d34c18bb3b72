//! A flat list of items, queried by testing every item in turn.

use crate::aabb::{surrounding, AABB};
use crate::hittable::{hit_view, item_fn, item_test_ok, lemma_item_call, Hit};
use vstd::prelude::*;

verus! {

/// The linear scan over items `0..k`: each item is tested over
/// `(lo, closest)`, where `closest` is the parameter of the hit kept so
/// far (at first `hi`), and a hit replaces the one kept.
pub open spec fn scan(pf: spec_fn(int, int, int) -> Option<int>, k: int, lo: int, hi: int) -> Option<(int, int)>
    decreases k,
{
    if k <= 0 {
        None
    } else {
        let prev = scan(pf, k - 1, lo, hi);
        let bound = match prev {
            Some((_, t)) => t,
            None => hi,
        };
        match pf(k - 1, lo, bound) {
            Some(t) => Some((k - 1, t)),
            None => prev,
        }
    }
}

/// The box around the boxes `bounds[0..k]`, or `None` where one of them is
/// missing or there are none.
pub open spec fn enclosing(bounds: Seq<Option<AABB>>, k: int) -> Option<AABB>
    decreases k,
{
    if k <= 0 {
        None
    } else {
        match bounds[k - 1] {
            None => None,
            Some(b) => if k == 1 {
                Some(b)
            } else {
                match enclosing(bounds, k - 1) {
                    None => None,
                    Some(acc) => Some(surrounding(acc, b)),
                }
            },
        }
    }
}

/// The items of a scene, each given by its bounding box, or `None` for an
/// unbounded one; an item is named by its position.
pub struct HittableList {
    objects: Vec<Option<AABB>>,
}

impl HittableList {
    pub closed spec fn bounds(&self) -> Seq<Option<AABB>> {
        self.objects@
    }

    pub fn new() -> (r: HittableList)
        ensures
            r.bounds() == Seq::<Option<AABB>>::empty(),
    {
        HittableList { objects: Vec::new() }
    }

    /// Appends an item; it is named by the list's former length.
    pub fn add(&mut self, object: Option<AABB>)
        ensures
            final(self).bounds() == old(self).bounds().push(object),
    {
        self.objects.push(object);
    }

    pub fn clear(&mut self)
        ensures
            final(self).bounds() == Seq::<Option<AABB>>::empty(),
    {
        self.objects.clear();
    }

    pub fn len(&self) -> (r: usize)
        ensures
            r == self.bounds().len(),
    {
        self.objects.len()
    }

    /// The items' boxes, for building a tree over them.
    pub fn objects(&self) -> (r: &Vec<Option<AABB>>)
        ensures
            r@ == self.bounds(),
    {
        &self.objects
    }

    /// The box around every item's box: `None` for an empty list, or where
    /// some item is unbounded.
    pub fn bounding_box(&self) -> (r: Option<AABB>)
        ensures
            r == enclosing(self.bounds(), self.bounds().len() as int),
    {
        let mut acc: Option<AABB> = None;
        let mut i: usize = 0;
        while i < self.objects.len()
            invariant
                i <= self.objects.len(),
                acc == enclosing(self.bounds(), i as int),
                i > 0 ==> acc is Some,
            decreases self.objects.len() - i,
        {
            match self.objects[i] {
                None => {
                    proof {
                        lemma_enclosing_none(self.bounds(), i as int + 1, self.bounds().len() as int);
                    }
                    return None;
                },
                Some(b) => {
                    acc = match acc {
                        None => Some(b),
                        Some(a) => Some(AABB::surrounding_box(&a, &b)),
                    };
                },
            }
            i = i + 1;
        }
        acc
    }

    /// The first item that the ray meets in `(t_min, t_max)`: every item is
    /// tested in order, each against the closest hit found before it.
    pub fn hit<P: Fn(usize, i64, i64) -> Option<i64>>(&self, item_hit: &P, t_min: i64, t_max: i64) -> (r:
        Option<Hit>)
        requires
            item_test_ok(*item_hit),
        ensures
            hit_view(r) == scan(
                item_fn(*item_hit),
                self.bounds().len() as int,
                t_min as int,
                t_max as int,
            ),
    {
        let mut best: Option<Hit> = None;
        let mut closest: i64 = t_max;
        let mut i: usize = 0;
        while i < self.objects.len()
            invariant
                i <= self.objects.len(),
                item_test_ok(*item_hit),
                hit_view(best) == scan(item_fn(*item_hit), i as int, t_min as int, t_max as int),
                closest == (match best {
                    Some(h) => h.t,
                    None => t_max,
                }),
            decreases self.objects.len() - i,
        {
            let r = item_hit(i, t_min, closest);
            proof {
                lemma_item_call(*item_hit, i, t_min, closest, r);
            }
            match r {
                Some(t) => {
                    best = Some(Hit { item: i, t });
                    closest = t;
                },
                None => {},
            }
            i = i + 1;
        }
        best
    }
}

/// Once a box is missing, the enclosing box of every longer prefix is missing.
proof fn lemma_enclosing_none(bounds: Seq<Option<AABB>>, k: int, n: int)
    requires
        1 <= k <= n <= bounds.len(),
        bounds[k - 1] is None,
    ensures
        enclosing(bounds, n) is None,
    decreases n - k,
{
    if n > k {
        lemma_enclosing_none(bounds, k, n - 1);
    }
}

} // verus!
