use raytrace::aabb::{slab_hit, Point3, Slab, AABB};
use raytrace::key::{key_bits, real_key, INFINITY_KEY};

fn key(x: f64) -> i64 {
    real_key(x.to_bits()).unwrap()
}

fn val(k: i64) -> f64 {
    f64::from_bits(key_bits(k))
}

fn boxed(lo: [f64; 3], hi: [f64; 3]) -> AABB {
    AABB::new(
        &Point3::new(key(lo[0]), key(lo[1]), key(lo[2])),
        &Point3::new(key(hi[0]), key(hi[1]), key(hi[2])),
    )
}

fn slabs(b: &AABB, origin: [f64; 3], dir: [f64; 3]) -> [Slab; 3] {
    let lo = [val(b.lo.x), val(b.lo.y), val(b.lo.z)];
    let hi = [val(b.hi.x), val(b.hi.y), val(b.hi.z)];
    let mut out = [Slab { enter: None, exit: None, reversed: false }; 3];
    for a in 0..3 {
        let inv = 1.0 / dir[a];
        out[a] = Slab {
            enter: real_key(((lo[a] - origin[a]) * inv).to_bits()),
            exit: real_key(((hi[a] - origin[a]) * inv).to_bits()),
            reversed: inv < 0.0,
        };
    }
    out
}

#[test]
fn keys_order_as_reals() {
    let xs = [f64::NEG_INFINITY, -3.5, -1.0, -1e-300, 0.0, 1e-300, 0.5, 2.0, 1e300, f64::INFINITY];
    for w in xs.windows(2) {
        assert!(key(w[0]) < key(w[1]));
    }
    assert_eq!(key(-0.0), key(0.0));
    assert_eq!(key(f64::INFINITY), INFINITY_KEY);
    assert_eq!(key(-2.25), -key(2.25));
    assert!(real_key(f64::NAN.to_bits()).is_none());
}

#[test]
fn keys_round_trip() {
    for x in [-7.25, -0.001, 0.0, 3.0, f64::INFINITY, f64::NEG_INFINITY] {
        assert_eq!(val(key(x)), x);
    }
    assert_eq!(val(key(-0.0)).to_bits(), 0.0f64.to_bits());
}

#[test]
fn surrounding_box_takes_extremes() {
    let a = boxed([0.0, -1.0, 2.0], [1.0, 1.0, 3.0]);
    let b = boxed([-2.0, 0.0, 2.5], [0.5, 4.0, 2.75]);
    let s = AABB::surrounding_box(&a, &b);
    assert_eq!(s, boxed([-2.0, -1.0, 2.0], [1.0, 4.0, 3.0]));
    assert_eq!(s.min(), Point3::new(key(-2.0), key(-1.0), key(2.0)));
    assert_eq!(s.max(), Point3::new(key(1.0), key(4.0), key(3.0)));
    assert_eq!(AABB::surrounding_box(&a, &a), a);
}

#[test]
fn surrounding_box_is_tightest() {
    let a = boxed([0.0, 0.0, 0.0], [1.0, 1.0, 1.0]);
    let b = boxed([2.0, 2.0, 2.0], [3.0, 3.0, 3.0]);
    let s = AABB::surrounding_box(&a, &b);
    for c in [&a, &b] {
        assert!(s.lo.x <= c.lo.x && s.lo.y <= c.lo.y && s.lo.z <= c.lo.z);
        assert!(c.hi.x <= s.hi.x && c.hi.y <= s.hi.y && c.hi.z <= s.hi.z);
    }
    assert_eq!(s.lo, a.lo);
    assert_eq!(s.hi, b.hi);
}

#[test]
fn slab_test_hits_and_misses() {
    let b = boxed([-1.0, -1.0, -1.0], [1.0, 1.0, 1.0]);
    let (lo, hi) = (key(0.001), INFINITY_KEY);
    assert!(slab_hit(&slabs(&b, [-5.0, 0.0, 0.0], [1.0, 0.1, 0.0]), lo, hi));
    assert!(!slab_hit(&slabs(&b, [-5.0, 3.0, 0.0], [1.0, 0.0, 0.0]), lo, hi));
    assert!(!slab_hit(&slabs(&b, [5.0, 0.0, 0.0], [1.0, 0.0, 0.0]), lo, hi));
    assert!(slab_hit(&slabs(&b, [5.0, 0.0, 0.0], [-1.0, 0.0, 0.0]), lo, hi));
    // the box lies beyond the end of the interval
    assert!(!slab_hit(&slabs(&b, [-5.0, 0.0, 0.0], [1.0, 0.0, 0.0]), lo, key(3.0)));
}

#[test]
fn slab_test_parallel_axes() {
    let b = boxed([-1.0, -1.0, -1.0], [1.0, 1.0, 1.0]);
    let (lo, hi) = (key(0.001), INFINITY_KEY);
    // zero direction components give infinite quotients
    assert!(slab_hit(&slabs(&b, [0.5, 0.5, -4.0], [0.0, 0.0, 1.0]), lo, hi));
    assert!(!slab_hit(&slabs(&b, [1.5, 0.5, -4.0], [0.0, 0.0, 1.0]), lo, hi));
    assert!(!slab_hit(&slabs(&b, [0.5, -1.5, -4.0], [-0.0, 0.0, 1.0]), lo, hi));
}

#[test]
fn slab_test_reversed_ray_agrees() {
    let b = boxed([1.0, -2.0, 0.5], [2.0, 2.0, 3.0]);
    let origins = [[0.0, 0.0, 0.0], [5.0, 1.0, 1.0], [1.5, 0.0, -3.0], [-2.0, 9.0, 2.0]];
    let dirs = [[1.0, 0.2, 0.3], [-1.0, 0.0, 0.1], [0.0, 0.1, 1.0], [0.4, -1.0, 0.0]];
    let intervals = [(key(0.001), INFINITY_KEY), (key(-10.0), key(10.0)), (key(0.5), key(4.0))];
    for o in origins {
        for d in dirs {
            for (lo, hi) in intervals {
                let forward = slab_hit(&slabs(&b, o, d), lo, hi);
                let back = slab_hit(&slabs(&b, o, [-d[0], -d[1], -d[2]]), -hi, -lo);
                assert_eq!(forward, back);
            }
        }
    }
}
