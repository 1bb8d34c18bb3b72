use rand::rngs::StdRng;
use rand::{Rng, SeedableRng};
use raytrace::aabb::{slab_hit, Point3, Slab, AABB};
use raytrace::bvh::{BvhError, BVH};
use raytrace::hittable::Hit;
use raytrace::hittable_list::HittableList;
use raytrace::key::{key_bits, real_key, INFINITY_KEY};
use raytrace::sphere::select_root;

fn key(x: f64) -> i64 {
    real_key(x.to_bits()).unwrap()
}

fn val(k: i64) -> f64 {
    f64::from_bits(key_bits(k))
}

#[derive(Clone, Copy)]
struct Ball {
    c: [f64; 3],
    r: f64,
}

fn dot(a: [f64; 3], b: [f64; 3]) -> f64 {
    a[0] * b[0] + a[1] * b[1] + a[2] * b[2]
}

fn ball_box(b: &Ball) -> AABB {
    AABB::new(
        &Point3::new(key(b.c[0] - b.r), key(b.c[1] - b.r), key(b.c[2] - b.r)),
        &Point3::new(key(b.c[0] + b.r), key(b.c[1] + b.r), key(b.c[2] + b.r)),
    )
}

fn ball_hit(b: &Ball, o: [f64; 3], d: [f64; 3], lo: i64, hi: i64) -> Option<i64> {
    let oc = [o[0] - b.c[0], o[1] - b.c[1], o[2] - b.c[2]];
    let a = dot(d, d);
    let half_b = dot(oc, d);
    let c = dot(oc, oc) - b.r * b.r;
    let disc = half_b * half_b - a * c;
    if disc > 0.0 {
        let root = disc.sqrt();
        let near = (-half_b - root) / a;
        let far = (-half_b + root) / a;
        select_root(true, real_key(near.to_bits()), real_key(far.to_bits()), lo, hi)
    } else {
        select_root(false, None, None, lo, hi)
    }
}

fn box_hit(b: &AABB, o: [f64; 3], d: [f64; 3], lo: i64, hi: i64) -> bool {
    let blo = [val(b.lo.x), val(b.lo.y), val(b.lo.z)];
    let bhi = [val(b.hi.x), val(b.hi.y), val(b.hi.z)];
    let mut s = [Slab { enter: None, exit: None, reversed: false }; 3];
    for a in 0..3 {
        let inv = 1.0 / d[a];
        s[a] = Slab {
            enter: real_key(((blo[a] - o[a]) * inv).to_bits()),
            exit: real_key(((bhi[a] - o[a]) * inv).to_bits()),
            reversed: inv < 0.0,
        };
    }
    slab_hit(&s, lo, hi)
}

fn random_scene(rng: &mut StdRng, n: usize) -> Vec<Ball> {
    (0..n)
        .map(|_| Ball {
            c: [rng.gen_range(-10.0, 10.0), rng.gen_range(-10.0, 10.0), rng.gen_range(-10.0, 10.0)],
            r: rng.gen_range(0.2, 2.0),
        })
        .collect()
}

fn list_of(balls: &[Ball]) -> HittableList {
    let mut list = HittableList::new();
    for b in balls {
        list.add(Some(ball_box(b)));
    }
    list
}

fn query(tree: &BVH, balls: &[Ball], o: [f64; 3], d: [f64; 3]) -> (Option<Hit>, Option<Hit>) {
    let (lo, hi) = (key(0.001), INFINITY_KEY);
    let item = |p: usize, l: i64, h: i64| ball_hit(&balls[p], o, d, l, h);
    let bx = |b: AABB, l: i64, h: i64| box_hit(&b, o, d, l, h);
    (tree.hit(&bx, &item, lo, hi), list_of(balls).hit(&item, lo, hi))
}

#[test]
fn select_root_prefers_near_root() {
    let (lo, hi) = (key(0.001), key(100.0));
    assert_eq!(select_root(true, Some(key(2.0)), Some(key(4.0)), lo, hi), Some(key(2.0)));
    assert_eq!(select_root(true, Some(key(-2.0)), Some(key(4.0)), lo, hi), Some(key(4.0)));
    assert_eq!(select_root(true, Some(key(-2.0)), Some(key(-1.0)), lo, hi), None);
    assert_eq!(select_root(true, Some(key(200.0)), Some(key(300.0)), lo, hi), None);
    assert_eq!(select_root(false, Some(key(2.0)), Some(key(4.0)), lo, hi), None);
    // the interval is open at both ends
    assert_eq!(select_root(true, Some(lo), Some(hi), lo, hi), None);
    assert_eq!(select_root(true, None, Some(key(3.0)), lo, hi), Some(key(3.0)));
}

#[test]
fn sphere_tangent_and_crossing_rays() {
    let b = Ball { c: [0.0, 0.0, -5.0], r: 1.0 };
    let (lo, hi) = (key(0.001), INFINITY_KEY);
    // closest approach 2 > r: no hit
    assert_eq!(ball_hit(&b, [0.0, 2.0, 0.0], [0.0, 0.0, -1.0], lo, hi), None);
    // closest approach 0.5 < r: hit on the near side, before the centre
    let t = ball_hit(&b, [0.0, 0.5, 0.0], [0.0, 0.0, -1.0], lo, hi).unwrap();
    assert!(val(t) > 4.0 && val(t) < 5.0);
    // straight through the centre: the near root is exactly 4
    assert_eq!(ball_hit(&b, [0.0, 0.0, 0.0], [0.0, 0.0, -1.0], lo, hi), Some(key(4.0)));
    // from inside, the far root counts
    assert_eq!(ball_hit(&b, [0.0, 0.0, -5.0], [0.0, 0.0, -1.0], lo, hi), Some(key(1.0)));
}

#[test]
fn bvh_rejects_empty_and_unbounded() {
    let mut rng = StdRng::seed_from_u64(1);
    assert!(matches!(BVH::new(&Vec::new(), &mut rng), Err(BvhError::Empty)));
    let b = ball_box(&Ball { c: [0.0, 0.0, 0.0], r: 1.0 });
    let boxes = vec![Some(b), None, Some(b), None];
    assert!(matches!(BVH::new(&boxes, &mut rng), Err(BvhError::NoBoundingBox { index: 1 })));
}

#[test]
fn bvh_container_surrounds_all_items() {
    let mut rng = StdRng::seed_from_u64(7);
    let balls = random_scene(&mut rng, 25);
    let list = list_of(&balls);
    let tree = BVH::new(list.objects(), &mut rng).ok().unwrap();
    assert_eq!(Some(tree.bounding_box()), list.bounding_box());
    assert_eq!(tree.container, tree.bounding_box());
}

#[test]
fn list_bounding_box_cases() {
    let mut list = HittableList::new();
    assert_eq!(list.bounding_box(), None);
    let a = ball_box(&Ball { c: [0.0, 0.0, 0.0], r: 1.0 });
    let b = ball_box(&Ball { c: [3.0, -2.0, 1.0], r: 0.5 });
    list.add(Some(a));
    assert_eq!(list.bounding_box(), Some(a));
    list.add(Some(b));
    assert_eq!(list.bounding_box(), Some(AABB::surrounding_box(&a, &b)));
    list.add(None);
    assert_eq!(list.bounding_box(), None);
    assert_eq!(list.len(), 3);
    list.clear();
    assert_eq!(list.len(), 0);
}

#[test]
fn list_keeps_closest_hit() {
    let balls = [
        Ball { c: [0.0, 0.0, -10.0], r: 1.0 },
        Ball { c: [0.0, 0.0, -4.0], r: 1.0 },
        Ball { c: [0.0, 5.0, -2.0], r: 1.0 },
    ];
    let item = |p: usize, l: i64, h: i64| ball_hit(&balls[p], [0.0; 3], [0.0, 0.0, -1.0], l, h);
    let r = list_of(&balls).hit(&item, key(0.001), INFINITY_KEY);
    assert_eq!(r, Some(Hit { item: 1, t: key(3.0) }));
}

#[test]
fn bvh_matches_linear_scan() {
    let mut rng = StdRng::seed_from_u64(2024);
    for n in [1usize, 2, 3, 8, 40] {
        let balls = random_scene(&mut rng, n);
        let tree = BVH::new(list_of(&balls).objects(), &mut rng).ok().unwrap();
        let mut hits = 0;
        for _ in 0..300 {
            let o = [rng.gen_range(-15.0, 15.0), rng.gen_range(-15.0, 15.0), rng.gen_range(-15.0, 15.0)];
            let aim = balls[rng.gen_range(0, n)].c;
            let d = [
                aim[0] - o[0] + rng.gen_range(-2.0, 2.0),
                aim[1] - o[1] + rng.gen_range(-2.0, 2.0),
                aim[2] - o[2] + rng.gen_range(-2.0, 2.0),
            ];
            let (a, b) = query(&tree, &balls, o, d);
            assert_eq!(a.map(|h| h.t), b.map(|h| h.t));
            if a.is_some() {
                hits += 1;
            }
        }
        assert!(hits > 0);
    }
}

#[test]
fn bvh_build_is_reproducible_with_a_seed() {
    let mut scene_rng = StdRng::seed_from_u64(99);
    let balls = random_scene(&mut scene_rng, 30);
    let boxes = list_of(&balls).objects().clone();
    let t1 = BVH::new(&boxes, &mut StdRng::seed_from_u64(5)).ok().unwrap();
    let t2 = BVH::new(&boxes, &mut StdRng::seed_from_u64(5)).ok().unwrap();
    for _ in 0..200 {
        let o = [scene_rng.gen_range(-15.0, 15.0), scene_rng.gen_range(-15.0, 15.0), 20.0];
        let d = [scene_rng.gen_range(-0.5, 0.5), scene_rng.gen_range(-0.5, 0.5), -1.0];
        assert_eq!(query(&t1, &balls, o, d).0, query(&t2, &balls, o, d).0);
    }
}
