use boot_core::shapes::{Intersection, Substraction, Union};

#[test]
fn union_keeps_both_shapes() {
    let u = Union::new(3u32, "ball");
    assert_eq!(*u.first(), 3);
    assert_eq!(*u.second(), "ball");
}

#[test]
fn substraction_and_intersection_hold_their_parts() {
    let s = Substraction(1u8, 2u8);
    assert_eq!((s.0, s.1), (1, 2));
    let i = Intersection('a', 'b');
    assert_eq!((i.0, i.1), ('a', 'b'));
}
