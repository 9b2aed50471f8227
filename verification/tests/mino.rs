use server::block_state::Pos;
use server::mino::{Mino, Shape};
use server::user_rx::Key;

#[test]
fn test_mino_next() {
    let mut m = Mino::choose_random(1, 1);
    let v1 = m.current_pattern();
    m.rotate();
    m.rotate();
    m.rotate();
    let v2 = m.next_pattern();
    assert_eq!(v1, v2);
}

#[test]
fn pos_moves_by_key() {
    let p = Pos::new(3, 4);
    assert_eq!(p.next(Key::LEFT), Pos::new(2, 4));
    assert_eq!(p.next(Key::RIGHT), Pos::new(4, 4));
    assert_eq!(p.next(Key::DOWN), Pos::new(3, 5));
    assert_eq!(p.next(Key::ROTATION), p);
    assert_eq!(p.next(Key::LEFT).next(Key::RIGHT), p);
}

#[test]
fn pos_addition() {
    assert_eq!(Pos::new(1, 2) + Pos::new(-4, 10), Pos::new(-3, 12));
}

#[test]
fn shapes_by_index() {
    let order = [Shape::I, Shape::L, Shape::J, Shape::Z, Shape::S, Shape::O, Shape::T];
    for n in 0..21usize {
        assert_eq!(Shape::from_index(n), order[n % 7]);
    }
    assert_eq!(Shape::from_index(usize::MAX), order[usize::MAX % 7]);
}

#[test]
fn new_mino_is_fresh() {
    let m = Mino::new(Shape::T, 12, 22);
    assert_eq!(m.shape, Shape::T);
    assert_eq!(m.rotation, 0);
    assert_eq!(m.color, 12);
    assert_eq!(m.piled_color, 22);
    assert_eq!(m.get_pos(), Pos::new(0, 0));
    assert_eq!(
        m.current_pattern(),
        [Pos::new(1, 1), Pos::new(1, 0), Pos::new(0, 1), Pos::new(2, 1)]
    );
}

#[test]
fn random_mino_has_its_colours() {
    let m = Mino::choose_random(13, 23);
    assert_eq!((m.color, m.piled_color, m.rotation), (13, 23, 0));
    assert_eq!(m.patterns, Mino::new(m.shape, 13, 23).patterns);
    assert_eq!(m.get_pos(), Pos::new(0, 0));
}

#[test]
fn rotations_cycle_with_period_four() {
    let mut m = Mino::new(Shape::L, 10, 20);
    let start = m.current_pattern();
    let second = m.next_pattern();
    m.rotate();
    assert_eq!(m.rotation, 1);
    assert_eq!(m.current_pattern(), second);
    m.rotate();
    m.rotate();
    m.rotate();
    assert_eq!(m.rotation, 0);
    assert_eq!(m.current_pattern(), start);
}

#[test]
fn occupied_cells_follow_the_position() {
    let mut m = Mino::new(Shape::I, 10, 20);
    m.set_pos(Pos::new(5, 7));
    assert_eq!(
        m.current_occupied(),
        vec![Pos::new(5, 8), Pos::new(6, 8), Pos::new(7, 8), Pos::new(8, 8)]
    );
    assert_eq!(
        m.next_rotate_occupied(),
        vec![Pos::new(6, 7), Pos::new(6, 8), Pos::new(6, 9), Pos::new(6, 10)]
    );
    assert_eq!(
        m.next_pos_occupied(Pos::new(0, 0)),
        vec![Pos::new(0, 1), Pos::new(1, 1), Pos::new(2, 1), Pos::new(3, 1)]
    );
}

#[test]
fn collisions_between_cells() {
    let a = vec![Pos::new(1, 1), Pos::new(2, 1)];
    assert!(Mino::collision(&a, &vec![Pos::new(5, 5), Pos::new(2, 1)]));
    assert!(!Mino::collision(&a, &vec![Pos::new(1, 2)]));
    assert!(!Mino::collision(&a, &vec![]));
}

#[test]
fn collisions_with_positions_of_minos() {
    let mut m = Mino::new(Shape::O, 10, 20);
    m.set_pos(Pos::new(2, 1));
    let other = Mino::new(Shape::S, 11, 21);
    assert!(Mino::collision_with_minos(vec![Pos::new(2, 1)], vec![other, m]));
    assert!(!Mino::collision_with_minos(vec![Pos::new(3, 1)], vec![other, m]));
    assert!(!Mino::collision_with_minos(vec![Pos::new(3, 1)], vec![]));
}
