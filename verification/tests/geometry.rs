use snork::env::{Direction, Vec2D};

#[test]
fn directions_are_numbered() {
    assert_eq!(Direction::Up.index(), 0);
    assert_eq!(Direction::Down.index(), 1);
    assert_eq!(Direction::Left.index(), 2);
    assert_eq!(Direction::Right.index(), 3);
    let all = Direction::all();
    for i in 0..4 {
        assert_eq!(all[i].index(), i);
        assert_eq!(Direction::from_index(i), Some(all[i]));
    }
    assert_eq!(Direction::from_index(4), None);
}

#[test]
fn invert_swaps_opposites() {
    assert_eq!(Direction::Up.invert(), Direction::Down);
    assert_eq!(Direction::Down.invert(), Direction::Up);
    assert_eq!(Direction::Left.invert(), Direction::Right);
    assert_eq!(Direction::Right.invert(), Direction::Left);
}

#[test]
fn apply_moves_one_cell() {
    let p = Vec2D::new(3, 4);
    assert_eq!(p.apply(Direction::Up), Vec2D::new(3, 5));
    assert_eq!(p.apply(Direction::Down), Vec2D::new(3, 3));
    assert_eq!(p.apply(Direction::Left), Vec2D::new(2, 4));
    assert_eq!(p.apply(Direction::Right), Vec2D::new(4, 4));
    for d in Direction::all() {
        assert_eq!(p.apply(d).apply(d.invert()), p);
    }
}

#[test]
fn vector_arithmetic() {
    let a = Vec2D::new(3, -4);
    let b = Vec2D::new(-1, 6);
    assert_eq!(a.plus(b), Vec2D::new(2, 2));
    assert_eq!(a.minus(b), Vec2D::new(4, -10));
    assert_eq!(a.manhattan(), 7);
    assert_eq!(a.minus(b).manhattan(), 14);
    assert_eq!(Vec2D::new(0, 0).manhattan(), 0);
    assert_eq!(Vec2D::new(-32768, -32768).manhattan(), 65536);
}
