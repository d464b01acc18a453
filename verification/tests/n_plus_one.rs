use go_rules::board::{Board, Color};
use go_rules::game::NPlusOne;
use go_rules::n_plus_one::{check, matching_lines, NPlusOneResult};
use go_rules::point_list::GroupVec;
use go_rules::visibility::VisibilityBoard;

fn board_with(stones: &[(u32, u32)], color: u8) -> Board<Color> {
    let mut b = Board::empty(9, 9);
    for p in stones {
        b.set_point(*p, Color(color));
    }
    b
}

fn result(stones: &[(u32, u32)], played: (u32, u32), length: u8) -> NPlusOneResult {
    let b = board_with(stones, 1);
    check(&GroupVec::from_slice(&[played]), &b, None, &NPlusOne { length })
}

#[test]
fn a_column_of_the_length_matches() {
    let stones = [(4, 2), (4, 3), (4, 4), (4, 5)];
    assert_eq!(result(&stones, (4, 3), 4), NPlusOneResult::ExtraTurn);
    assert_eq!(result(&stones, (4, 5), 4), NPlusOneResult::ExtraTurn);
    assert_eq!(result(&stones, (4, 2), 4), NPlusOneResult::ExtraTurn);
}

#[test]
fn a_row_of_the_length_matches() {
    let stones = [(0, 8), (1, 8), (2, 8)];
    assert_eq!(result(&stones, (1, 8), 3), NPlusOneResult::ExtraTurn);
    assert_eq!(result(&stones, (0, 8), 3), NPlusOneResult::ExtraTurn);
}

#[test]
fn both_diagonals_match() {
    let falling = [(5, 5), (6, 6), (7, 7), (8, 8)];
    assert_eq!(result(&falling, (6, 6), 4), NPlusOneResult::ExtraTurn);
    assert_eq!(result(&falling, (8, 8), 4), NPlusOneResult::ExtraTurn);
    let rising = [(0, 3), (1, 2), (2, 1), (3, 0)];
    assert_eq!(result(&rising, (0, 3), 4), NPlusOneResult::ExtraTurn);
    assert_eq!(result(&rising, (2, 1), 4), NPlusOneResult::ExtraTurn);
    assert_eq!(result(&rising, (3, 0), 4), NPlusOneResult::ExtraTurn);
}

#[test]
fn a_longer_or_shorter_run_does_not_match() {
    let stones = [(4, 2), (4, 3), (4, 4), (4, 5), (4, 6)];
    assert_eq!(result(&stones, (4, 4), 4), NPlusOneResult::Nothing);
    assert_eq!(result(&stones, (4, 4), 6), NPlusOneResult::Nothing);
    assert_eq!(result(&stones, (4, 4), 5), NPlusOneResult::ExtraTurn);
}

#[test]
fn a_gap_or_another_colour_ends_the_run() {
    let mut b = board_with(&[(0, 0), (1, 0), (3, 0), (4, 0)], 1);
    let rule = NPlusOne { length: 4 };
    assert_eq!(check(&GroupVec::from_slice(&[(1, 0)]), &b, None, &rule), NPlusOneResult::Nothing);
    b.set_point((2, 0), Color(2));
    assert_eq!(check(&GroupVec::from_slice(&[(1, 0)]), &b, None, &rule), NPlusOneResult::Nothing);
    b.set_point((2, 0), Color(1));
    b.set_point((4, 0), Color(0));
    assert_eq!(check(&GroupVec::from_slice(&[(1, 0)]), &b, None, &rule), NPlusOneResult::ExtraTurn);
}

#[test]
fn a_single_stone_is_a_run_of_one() {
    assert_eq!(result(&[(4, 4)], (4, 4), 1), NPlusOneResult::ExtraTurn);
    assert_eq!(result(&[(4, 4)], (4, 4), 2), NPlusOneResult::Nothing);
}

#[test]
fn no_point_played_earns_nothing() {
    let b = board_with(&[(0, 0), (1, 0)], 1);
    let r = check(&GroupVec::new(), &b, None, &NPlusOne { length: 2 });
    assert_eq!(r, NPlusOneResult::Nothing);
}

#[test]
fn one_of_several_points_suffices() {
    let b = board_with(&[(0, 0), (1, 0), (5, 5)], 1);
    let played = GroupVec::from_slice(&[(5, 5), (1, 0)]);
    assert_eq!(check(&played, &b, None, &NPlusOne { length: 2 }), NPlusOneResult::ExtraTurn);
}

#[test]
fn matching_lines_are_shown_and_others_are_not() {
    let b = board_with(&[(2, 2), (3, 2), (4, 2), (3, 3), (3, 4)], 1);
    let mut fog = VisibilityBoard::clear(9, 9);
    for x in 0..9 {
        for y in 0..9 {
            fog.set_point((x, y), 1);
        }
    }
    let played = GroupVec::from_slice(&[(3, 2)]);
    let r = check(&played, &b, Some(&mut fog), &NPlusOne { length: 3 });
    assert_eq!(r, NPlusOneResult::ExtraTurn);
    let shown = [(2, 2), (3, 2), (4, 2), (3, 3), (3, 4)];
    for x in 0..9 {
        for y in 0..9 {
            let expected = if shown.contains(&(x, y)) { 0 } else { 1 };
            assert_eq!(fog.get_point((x, y)), expected, "at ({}, {})", x, y);
        }
    }
}

#[test]
fn nothing_is_shown_without_a_match() {
    let b = board_with(&[(2, 2), (3, 2)], 1);
    let mut fog = VisibilityBoard::clear(9, 9);
    fog.set_point((2, 2), 1);
    let played = GroupVec::from_slice(&[(3, 2)]);
    let r = check(&played, &b, Some(&mut fog), &NPlusOne { length: 3 });
    assert_eq!(r, NPlusOneResult::Nothing);
    assert_eq!(fog.get_point((2, 2)), 1);
}

#[test]
fn matching_lines_lists_the_cells() {
    let b = board_with(&[(0, 0), (1, 1)], 1);
    let (matched, mut cells) = matching_lines(
        &GroupVec::from_slice(&[(1, 1)]),
        &b,
        &NPlusOne { length: 2 },
    );
    cells.sort();
    cells.dedup();
    assert!(matched);
    assert_eq!(cells, vec![(0, 0), (1, 1)]);
}
