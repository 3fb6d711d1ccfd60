use rs_voxie::ivec3::IVec3;
use rs_voxie::octree::bbs::IAabb;

#[test]
fn iaabb_new_spans_size() {
    let b = IAabb::new(&IVec3::new(1, 2, 3), 4);
    assert_eq!(b.min, IVec3::new(1, 2, 3));
    assert_eq!(b.max, IVec3::new(5, 6, 7));
}

#[test]
fn iaabb_touching_boxes_do_not_intersect() {
    let a = IAabb::new(&IVec3::zero(), 2);
    let b = IAabb::new(&IVec3::new(2, 0, 0), 2);
    assert!(!a.intersects(&b));
    let c = IAabb::new(&IVec3::new(1, 1, 1), 2);
    assert!(a.intersects(&c));
}

#[test]
fn iaabb_intersection_is_the_overlap() {
    let a = IAabb::new(&IVec3::zero(), 4);
    let b = IAabb::new(&IVec3::new(2, 1, 3), 4);
    let o = a.intersection(&b).unwrap();
    assert_eq!(o.min, IVec3::new(2, 1, 3));
    assert_eq!(o.max, IVec3::new(4, 4, 4));
    let far = IAabb::new(&IVec3::splat(10), 1);
    assert!(a.intersection(&far).is_none());
    let touching = IAabb::new(&IVec3::new(4, 0, 0), 1);
    assert!(a.intersection(&touching).is_none());
}

#[test]
fn iaabb_contains_and_area() {
    let a = IAabb::new(&IVec3::zero(), 4);
    let b = IAabb::new(&IVec3::new(1, 1, 1), 2);
    assert!(a.contains(&b));
    assert!(!b.contains(&a));
    assert!(a.contains(&a));
    assert_eq!(a.area(), 64);
    let r = IAabb::new_rect(IVec3::new(0, 0, 0), IVec3::new(2, 3, 4));
    assert_eq!(r.area(), 24);
}

#[test]
fn iaabb_try_new_rect_refuses_flat_boxes() {
    assert!(IAabb::try_new_rect(IVec3::zero(), IVec3::new(1, 0, 1)).is_none());
    assert!(IAabb::try_new_rect(IVec3::zero(), IVec3::one()).is_some());
}
