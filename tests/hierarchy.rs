use raytracer::aabb::{Corner, AABB};
use raytracer::bvh::{BVHNode, HittableList};
use raytracer::key::{key_bits, order_key};

#[derive(Clone, Copy, Debug)]
struct Ball {
    c: [f32; 3],
    r: f32,
    id: usize,
}

struct Probe {
    o: [f32; 3],
    d: [f32; 3],
}

fn key(x: f32) -> u32 {
    order_key(x.to_bits())
}

fn value(k: u32) -> f32 {
    f32::from_bits(key_bits(k))
}

fn ball_box(b: &Ball) -> AABB {
    AABB::new(
        Corner::new(key(b.c[0] - b.r), key(b.c[1] - b.r), key(b.c[2] - b.r)),
        Corner::new(key(b.c[0] + b.r), key(b.c[1] + b.r), key(b.c[2] + b.r)),
    )
}

fn dot(a: [f32; 3], b: [f32; 3]) -> f32 {
    a[0] * b[0] + a[1] * b[1] + a[2] * b[2]
}

fn ball_hit(b: &Ball, p: &Probe, tmin: f32, tmax: f32) -> Option<(u32, usize)> {
    let oc = [p.o[0] - b.c[0], p.o[1] - b.c[1], p.o[2] - b.c[2]];
    let a = dot(p.d, p.d);
    let hb = dot(oc, p.d);
    let c = dot(oc, oc) - b.r * b.r;
    let disc = hb * hb - a * c;
    if disc > 0.0 {
        for t in [(-hb - disc.sqrt()) / a, (-hb + disc.sqrt()) / a] {
            if t < tmax && t > tmin {
                return Some((key(t), b.id));
            }
        }
    }
    None
}

fn box_hit(bx: &AABB, p: &Probe, tmin: f32, tmax: f32) -> bool {
    let lo = [value(bx.min.x), value(bx.min.y), value(bx.min.z)];
    let hi = [value(bx.max.x), value(bx.max.y), value(bx.max.z)];
    let (mut tmin, mut tmax) = (tmin, tmax);
    for a in 0..3 {
        let inv = 1.0 / p.d[a];
        let mut t0 = (lo[a] - p.o[a]) * inv;
        let mut t1 = (hi[a] - p.o[a]) * inv;
        if inv < 0.0 {
            std::mem::swap(&mut t0, &mut t1);
        }
        tmin = if t0 > tmin { t0 } else { tmin };
        tmax = if t1 < tmax { t1 } else { tmax };
        if tmax <= tmin {
            return false;
        }
    }
    true
}

struct Lcg(u64);

impl Lcg {
    fn next(&mut self) -> f32 {
        self.0 = self.0.wrapping_mul(6364136223846793005).wrapping_add(1442695040888963407);
        ((self.0 >> 40) as f32) / ((1u64 << 24) as f32)
    }
}

fn scene(n: usize, seed: u64) -> Vec<Ball> {
    let mut g = Lcg(seed);
    (0..n)
        .map(|id| Ball {
            c: [g.next() * 20.0 - 10.0, g.next() * 4.0 - 2.0, g.next() * 20.0 - 10.0],
            r: 0.2 + g.next(),
            id,
        })
        .collect()
}

fn build(balls: &[Ball]) -> BVHNode<Ball> {
    let boxes: Vec<AABB> = balls.iter().map(ball_box).collect();
    BVHNode::new(balls.to_vec(), &boxes, boxes.clone())
}

#[test]
fn hierarchy_matches_list() {
    let balls = scene(60, 7);
    let list = HittableList { items: balls.clone() };
    let mut g = Lcg(99);
    for _ in 0..5 {
        let bvh = build(&balls);
        assert_eq!(bvh.len(), 60);
        let mut hits = 0;
        for _ in 0..400 {
            let p = Probe {
                o: [g.next() * 30.0 - 15.0, g.next() * 6.0 - 3.0, g.next() * 30.0 - 15.0],
                d: [g.next() - 0.5, g.next() - 0.5, g.next() - 0.5],
            };
            let (tmin, tmax) = (0.001f32, f32::MAX);
            let from_tree = bvh.hit(&|b: &AABB| box_hit(b, &p, tmin, tmax), &|s: &Ball| ball_hit(s, &p, tmin, tmax));
            let from_list = list.hit(&|s: &Ball| ball_hit(s, &p, tmin, tmax));
            assert_eq!(from_tree.map(|h| h.0), from_list.map(|h| h.0));
            if from_tree.is_some() {
                hits += 1;
            }
        }
        assert!(hits > 0);
    }
}

#[test]
fn two_primitives_make_one_node() {
    let balls = vec![
        Ball { c: [0.0, 0.0, -5.0], r: 1.0, id: 0 },
        Ball { c: [0.0, 0.0, -10.0], r: 1.0, id: 1 },
    ];
    let bvh = build(&balls);
    let p = Probe { o: [0.0, 0.0, 0.0], d: [0.0, 0.0, -1.0] };
    let h = bvh.hit(&|b: &AABB| box_hit(b, &p, 0.001, f32::MAX), &|s: &Ball| ball_hit(s, &p, 0.001, f32::MAX));
    assert_eq!(h, Some((key(4.0), 0)));
    let miss = Probe { o: [5.0, 0.0, 0.0], d: [0.0, 0.0, -1.0] };
    let h = bvh.hit(&|b: &AABB| box_hit(b, &miss, 0.001, f32::MAX), &|s: &Ball| ball_hit(s, &miss, 0.001, f32::MAX));
    assert_eq!(h, None);
}

#[test]
fn hierarchy_box_surrounds_everything() {
    let balls = scene(17, 3);
    let bvh = build(&balls);
    let mut all = AABB::new_empty();
    for b in &balls {
        all.add(&ball_box(b));
    }
    assert_eq!(bvh.bounding_box(), all);
}

#[test]
fn list_box_is_union_or_none() {
    let balls = scene(5, 11);
    let list = HittableList { items: balls.clone() };
    let mut all = AABB::new_empty();
    for b in &balls {
        all.add(&ball_box(b));
    }
    assert_eq!(list.bounding_box(&|b: &Ball| Some(ball_box(b))), Some(all));
    assert_eq!(list.bounding_box(&|b: &Ball| if b.id == 3 { None } else { Some(ball_box(b)) }), None);
    let empty: HittableList<Ball> = HittableList { items: vec![] };
    assert_eq!(empty.bounding_box(&|b: &Ball| Some(ball_box(b))), Some(AABB::new_empty()));
}

#[test]
fn list_keeps_first_of_equal_hits() {
    let balls = vec![
        Ball { c: [0.0, 0.0, -5.0], r: 1.0, id: 0 },
        Ball { c: [0.0, 0.0, -5.0], r: 1.0, id: 1 },
        Ball { c: [0.0, 0.0, -3.0], r: 0.5, id: 2 },
    ];
    let list = HittableList { items: balls };
    let p = Probe { o: [0.0, 0.0, 0.0], d: [0.0, 0.0, -1.0] };
    assert_eq!(list.hit(&|s: &Ball| ball_hit(s, &p, 0.001, f32::MAX)), Some((key(2.5), 2)));
    let far = Probe { o: [0.0, 0.9, 0.0], d: [0.0, 0.0, -1.0] };
    let h = list.hit(&|s: &Ball| ball_hit(s, &far, 0.001, f32::MAX));
    assert_eq!(h.map(|x| x.1), Some(0));
}

#[test]
fn hierarchy_keeps_right_of_equal_hits() {
    let balls = vec![
        Ball { c: [0.0, 0.0, -5.0], r: 1.0, id: 0 },
        Ball { c: [0.0, 0.0, -5.0], r: 1.0, id: 1 },
    ];
    let bvh = build(&balls);
    let p = Probe { o: [0.0, 0.0, 0.0], d: [0.0, 0.0, -1.0] };
    let h = bvh.hit(&|b: &AABB| box_hit(b, &p, 0.001, f32::MAX), &|s: &Ball| ball_hit(s, &p, 0.001, f32::MAX));
    assert_eq!(h, Some((key(4.0), 1)));
}

#[test]
fn missed_root_box_gives_no_hit() {
    let balls = scene(9, 5);
    let bvh = build(&balls);
    let h = bvh.hit(&|_: &AABB| false, &|s: &Ball| Some((key(1.0), s.id)));
    assert_eq!(h, None);
}
