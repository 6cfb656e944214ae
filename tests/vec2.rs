use snake_pixels::vec2::Vec2;

#[test]
fn add_and_add_assign() {
    let a = Vec2(3, -2);
    assert_eq!(a.add(Vec2(1, 5)), Vec2(4, 3));
    let mut b = Vec2(0, 0);
    b.add_assign(Vec2(-1, 0));
    b.add_assign(Vec2(0, 1));
    assert_eq!(b, Vec2(-1, 1));
    assert_eq!(Vec2::default(), Vec2(0, 0));
}
