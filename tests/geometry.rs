use raytracer::aabb::{Corner, AABB};
use raytracer::axis::Axis;
use raytracer::key::{key_bits, order_key, NEG_INF_KEY, POS_INF_KEY};

fn key(x: f32) -> u32 {
    order_key(x.to_bits())
}

fn corner(x: f32, y: f32, z: f32) -> Corner {
    Corner::new(key(x), key(y), key(z))
}

fn boxed(lo: (f32, f32, f32), hi: (f32, f32, f32)) -> AABB {
    AABB::new(corner(lo.0, lo.1, lo.2), corner(hi.0, hi.1, hi.2))
}

#[test]
fn axis_values() {
    assert_eq!(Axis::X.value(), 0);
    assert_eq!(Axis::Y.value(), 1);
    assert_eq!(Axis::Z.value(), 2);
    for i in 0..3usize {
        assert_eq!(Axis::from_index(i).value(), i);
    }
}

#[test]
fn random_axis_is_an_axis() {
    let mut seen = [false; 3];
    for _ in 0..300 {
        let a = Axis::random();
        seen[a.value()] = true;
    }
    assert!(seen.iter().all(|s| *s));
}

#[test]
fn keys_follow_number_order() {
    let values = [f32::NEG_INFINITY, -1.0e30, -2.5, -1.0, -0.0, 0.0, 1.0e-30, 1.0, 2.5, 1.0e30, f32::INFINITY];
    for w in values.windows(2) {
        assert!(key(w[0]) < key(w[1]), "{} {}", w[0], w[1]);
    }
    assert_eq!(key(f32::INFINITY), POS_INF_KEY);
    assert_eq!(key(f32::NEG_INFINITY), NEG_INF_KEY);
    assert_eq!(key(1.0), 0x3f80_0000 | 0x8000_0000);
    assert_eq!(key(-1.0), !0xbf80_0000u32);
}

#[test]
fn key_round_trip() {
    for x in [0.0f32, -0.0, 1.5, -1.5, 123.25, -7.0e-20, f32::MAX, f32::MIN] {
        let back = f32::from_bits(key_bits(key(x)));
        assert_eq!(back.to_bits(), x.to_bits());
    }
}

#[test]
fn union_is_commutative() {
    let a = boxed((0.0, -1.0, 2.0), (1.0, 1.0, 3.0));
    let b = boxed((-2.0, 0.5, 2.5), (0.5, 4.0, 2.75));
    let ab = AABB::new_surrounding(&a, &b);
    let ba = AABB::new_surrounding(&b, &a);
    assert_eq!(ab, ba);
    assert_eq!(ab, boxed((-2.0, -1.0, 2.0), (1.0, 4.0, 3.0)));
}

#[test]
fn union_is_idempotent() {
    let a = boxed((0.0, -1.0, 2.0), (1.0, 1.0, 3.0));
    let b = boxed((-2.0, 0.5, 2.5), (0.5, 4.0, 2.75));
    let ab = AABB::new_surrounding(&a, &b);
    assert_eq!(AABB::new_surrounding(&a, &ab), ab);
    assert_eq!(AABB::new_surrounding(&a, &a), a);
}

#[test]
fn empty_box_is_identity() {
    let a = boxed((0.0, -1.0, 2.0), (1.0, 1.0, 3.0));
    let e = AABB::new_empty();
    assert_eq!(AABB::new_surrounding(&e, &a), a);
    assert_eq!(AABB::new_surrounding(&a, &e), a);
    assert_eq!(*e.min(), Corner::new(POS_INF_KEY, POS_INF_KEY, POS_INF_KEY));
    assert_eq!(*e.max(), Corner::new(NEG_INF_KEY, NEG_INF_KEY, NEG_INF_KEY));
}

#[test]
fn add_grows_the_box() {
    let mut a = boxed((0.0, 0.0, 0.0), (1.0, 1.0, 1.0));
    a.add(&boxed((2.0, -3.0, 0.5), (2.5, -2.0, 0.75)));
    assert_eq!(a, boxed((0.0, -3.0, 0.0), (2.5, 1.0, 1.0)));
    assert_eq!(a.min().get(Axis::Y), key(-3.0));
    assert_eq!(a.max().get(Axis::X), key(2.5));
}
