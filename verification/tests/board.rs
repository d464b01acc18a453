use go_rules::board::{Board, Color};
use go_rules::visibility::{uncover_all, VisibilityBoard};

#[test]
fn color_empty_is_zero() {
    assert_eq!(Color::empty(), Color(0));
    assert!(Color::empty().is_empty());
    assert!(!Color(2).is_empty());
}

#[test]
fn board_cells_are_addressed_row_by_row() {
    let mut b = Board::empty(3, 2);
    assert_eq!(b.points.len(), 6);
    b.set_point((2, 0), Color(1));
    b.set_point((0, 1), Color(2));
    assert_eq!(b.points, vec![Color(0), Color(0), Color(1), Color(2), Color(0), Color(0)]);
    assert_eq!(b.get_point((2, 0)), Color(1));
    assert_eq!(b.get_point((0, 1)), Color(2));
    assert_eq!(b.get_point((1, 1)), Color(0));
    assert_eq!(b.offset((1, 1)), 4);
    assert_eq!(b.point_at(5), (2, 1));
}

#[test]
fn point_within_is_strict() {
    let b = Board::empty(3, 2);
    assert!(b.point_within((0, 0)));
    assert!(b.point_within((2, 1)));
    assert!(!b.point_within((3, 0)));
    assert!(!b.point_within((0, 2)));
}

#[test]
fn surrounding_points_stay_on_the_board() {
    let b = Board::empty(3, 3);
    assert_eq!(b.surrounding_points((1, 1)), vec![(0, 1), (2, 1), (1, 0), (1, 2)]);
    assert_eq!(b.surrounding_points((0, 0)), vec![(1, 0), (0, 1)]);
    assert_eq!(b.surrounding_points((2, 2)), vec![(1, 2), (2, 1)]);
    assert_eq!(b.surrounding_points((1, 0)), vec![(0, 0), (2, 0), (1, 1)]);
    let single = Board::empty(1, 1);
    assert_eq!(single.surrounding_points((0, 0)), vec![]);
}

#[test]
fn equal_boards_hash_equally() {
    let mut a = Board::empty(5, 5);
    let mut b = Board::empty(5, 5);
    a.set_point((1, 2), Color(1));
    b.set_point((1, 2), Color(1));
    assert!(a.same_as(&b));
    assert_eq!(a.hash(), b.hash());
    assert_eq!(a.hash(), a.clone().hash());
    b.set_point((1, 2), Color(2));
    assert!(!a.same_as(&b));
    assert_ne!(a.hash(), b.hash());
}

#[test]
fn hash_is_the_stated_mixing() {
    let step = |h: u64, w: u64| (h ^ w).wrapping_mul(0x0000_0100_0000_01b3);
    let mut b = Board::empty(2, 1);
    b.set_point((1, 0), Color(3));
    let mut h = 0xcbf2_9ce4_8422_2325u64;
    h = step(h, 2);
    h = step(h, 1);
    h = step(h, 0);
    h = step(h, 3);
    assert_eq!(b.hash(), h);
}

#[test]
fn hash_tells_shapes_apart() {
    let a = Board::empty(2, 3);
    let b = Board::empty(3, 2);
    assert!(!a.same_as(&b));
    assert_ne!(a.hash(), b.hash());
}

#[test]
fn clone_is_equal() {
    let mut a = Board::empty(4, 4);
    a.set_point((3, 3), Color(2));
    let b = a.clone();
    assert_eq!(a, b);
}

#[test]
fn overlay_hides_and_uncovers() {
    let mut v = VisibilityBoard::clear(3, 3);
    assert!(v.points.iter().all(|m| *m == 0));
    assert!(!v.is_hidden((1, 1)));
    v.set_point((1, 1), 0b10);
    assert!(v.is_hidden((1, 1)));
    assert!(v.uncover((1, 1)));
    assert!(!v.is_hidden((1, 1)));
    assert_eq!(v.get_point((1, 1)), 0);
    assert!(!v.uncover((1, 1)));
}

#[test]
fn uncover_all_reports_what_was_hidden() {
    let mut v = VisibilityBoard::clear(3, 3);
    v.set_point((0, 0), 1);
    v.set_point((2, 2), 0x8000);
    assert!(!uncover_all(&mut v, &vec![(1, 1), (1, 2)]));
    assert!(v.is_hidden((0, 0)));
    assert!(uncover_all(&mut v, &vec![(1, 1), (0, 0), (0, 0)]));
    assert!(!v.is_hidden((0, 0)));
    assert!(v.is_hidden((2, 2)));
    assert!(!uncover_all(&mut v, &vec![]));
}
