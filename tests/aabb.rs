use raytracer::aabb::{surrounding_box, Aabb, Point3};

fn bx(lo: (u32, u32, u32), hi: (u32, u32, u32)) -> Aabb {
    Aabb::new(Point3::new(lo.0, lo.1, lo.2), Point3::new(hi.0, hi.1, hi.2))
}

#[test]
fn getters_return_the_corners() {
    let b = bx((1, 2, 3), (4, 5, 6));
    assert_eq!(b.min(), Point3::new(1, 2, 3));
    assert_eq!(b.max(), Point3::new(4, 5, 6));
    assert_eq!(b.min().axis(0), 1);
    assert_eq!(b.max().axis(2), 6);
}

#[test]
fn surrounding_takes_least_and_greatest_corners() {
    let a = bx((1, 8, 3), (4, 9, 6));
    let b = bx((2, 0, 5), (3, 10, 7));
    let u = surrounding_box(a, b);
    assert_eq!(u, bx((1, 0, 3), (4, 10, 7)));
}

#[test]
fn surrounding_contains_both_inputs() {
    let a = bx((10, 10, 10), (20, 20, 20));
    let b = bx((30, 5, 15), (40, 12, 50));
    let u = surrounding_box(a, b);
    for p in [a.min(), a.max(), b.min(), b.max()] {
        assert!(u.min().x <= p.x && p.x <= u.max().x);
        assert!(u.min().y <= p.y && p.y <= u.max().y);
        assert!(u.min().z <= p.z && p.z <= u.max().z);
    }
}

#[test]
fn surrounding_a_box_with_itself_is_the_box() {
    let a = bx((7, 8, 9), (10, 11, 12));
    assert_eq!(surrounding_box(a, a), a);
}
