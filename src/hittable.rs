//! What a ray query hands back, and the view the library takes of the
//! caller's intersection tests.
//!
//! The geometric tests themselves are floating-point work done by the
//! caller and handed in as closures: one that tells whether a ray meets a
//! box over an interval of its parameter, and one that gives the parameter
//! at which it first meets an item inside an open interval. The library
//! asks of them only that they answer the same question the same way.

use crate::aabb::AABB;
use vstd::prelude::*;

verus! {

/// The item that a ray met first, and the key of the ray parameter there.
#[derive(Clone, Copy, Debug, PartialEq, Eq, Structural)]
pub struct Hit {
    pub item: usize,
    pub t: i64,
}

/// A query result as a pair of mathematical integers.
pub open spec fn hit_view(r: Option<Hit>) -> Option<(int, int)> {
    match r {
        Some(h) => Some((h.item as int, h.t as int)),
        None => None,
    }
}

/// The box test accepts every argument and always answers alike.
pub open spec fn box_test_ok<B: Fn(AABB, i64, i64) -> bool>(f: B) -> bool {
    &&& forall|b: AABB, lo: i64, hi: i64| #[trigger] f.requires((b, lo, hi))
    &&& forall|b: AABB, lo: i64, hi: i64, r1: bool, r2: bool|
        f.ensures((b, lo, hi), r1) && f.ensures((b, lo, hi), r2) ==> r1 == r2
}

/// The item test accepts every argument and always answers alike.
pub open spec fn item_test_ok<P: Fn(usize, i64, i64) -> Option<i64>>(f: P) -> bool {
    &&& forall|p: usize, lo: i64, hi: i64| #[trigger] f.requires((p, lo, hi))
    &&& forall|p: usize, lo: i64, hi: i64, r1: Option<i64>, r2: Option<i64>|
        f.ensures((p, lo, hi), r1) && f.ensures((p, lo, hi), r2) ==> r1 == r2
}

/// The box test as a function.
pub open spec fn box_fn<B: Fn(AABB, i64, i64) -> bool>(f: B) -> spec_fn(AABB, int, int) -> bool {
    |b: AABB, lo: int, hi: int| choose|r: bool| #[trigger] f.ensures((b, lo as i64, hi as i64), r)
}

/// The item test as a function.
pub open spec fn item_fn<P: Fn(usize, i64, i64) -> Option<i64>>(f: P) -> spec_fn(
    int,
    int,
    int,
) -> Option<int> {
    |p: int, lo: int, hi: int|
        {
            let r = choose|r: Option<i64>| #[trigger] f.ensures((p as usize, lo as i64, hi as i64), r);
            match r {
                Some(t) => Some(t as int),
                None => None,
            }
        }
}

/// A call of a well-behaved box test answers as its function says.
pub proof fn lemma_box_call<B: Fn(AABB, i64, i64) -> bool>(f: B, b: AABB, lo: i64, hi: i64, r: bool)
    requires
        box_test_ok(f),
        f.ensures((b, lo, hi), r),
    ensures
        r == box_fn(f)(b, lo as int, hi as int),
{
    let c = choose|c: bool| #[trigger] f.ensures((b, lo, hi), c);
    assert(f.ensures((b, lo, hi), c));
}

/// A call of a well-behaved item test answers as its function says.
pub proof fn lemma_item_call<P: Fn(usize, i64, i64) -> Option<i64>>(
    f: P,
    p: usize,
    lo: i64,
    hi: i64,
    r: Option<i64>,
)
    requires
        item_test_ok(f),
        f.ensures((p, lo, hi), r),
    ensures
        hit_of(p as int, r) == (match item_fn(f)(p as int, lo as int, hi as int) {
            Some(t) => Some((p as int, t)),
            None => None,
        }),
{
    let c = choose|c: Option<i64>| #[trigger] f.ensures((p, lo, hi), c);
    assert(f.ensures((p, lo, hi), c));
}

/// The result of testing item `p` alone, as a pair.
pub open spec fn hit_of(p: int, r: Option<i64>) -> Option<(int, int)> {
    match r {
        Some(t) => Some((p, t as int)),
        None => None,
    }
}

} // verus!
