use go_rules::board::{Board, Color};
use go_rules::capture::{capture_opponents, capture_own, reveal_group};
use go_rules::groups::find_groups;
use go_rules::point_list::GroupVec;
use go_rules::visibility::VisibilityBoard;

fn board(rows: &[&str]) -> Board<Color> {
    let h = rows.len() as u32;
    let w = rows[0].len() as u32;
    let mut b = Board::empty(w, h);
    for (y, row) in rows.iter().enumerate() {
        for (x, ch) in row.chars().enumerate() {
            let c = match ch {
                'x' => 1,
                'o' => 2,
                'z' => 3,
                _ => 0,
            };
            b.set_point((x as u32, y as u32), Color(c));
        }
    }
    b
}

fn sorted(v: &GroupVec) -> Vec<(u32, u32)> {
    let mut p = v.to_vec();
    p.sort();
    p
}

#[test]
fn empty_board_has_no_groups() {
    assert!(find_groups(&Board::empty(5, 5)).is_empty());
}

#[test]
fn groups_partition_the_stones() {
    let b = board(&[
        "xx.o",
        ".x.o",
        "o..x",
    ]);
    let groups = find_groups(&b);
    assert_eq!(groups.len(), 4);
    assert_eq!(groups[0].team, Color(1));
    assert_eq!(sorted(&groups[0].points), vec![(0, 0), (1, 0), (1, 1)]);
    assert_eq!(groups[0].points.get(0), (0, 0));
    assert_eq!(groups[0].liberties, 4);
    assert_eq!(groups[1].team, Color(2));
    assert_eq!(sorted(&groups[1].points), vec![(3, 0), (3, 1)]);
    assert_eq!(groups[1].liberties, 2);
    assert_eq!(groups[2].team, Color(2));
    assert_eq!(sorted(&groups[2].points), vec![(0, 2)]);
    assert_eq!(groups[2].liberties, 2);
    assert_eq!(groups[3].team, Color(1));
    assert_eq!(sorted(&groups[3].points), vec![(3, 2)]);
    assert_eq!(groups[3].liberties, 1);
    let total: usize = groups.iter().map(|g| g.points.len()).sum();
    assert_eq!(total, 7);
}

#[test]
fn a_shared_liberty_counts_once() {
    let b = board(&[
        "x.x",
        "xxx",
    ]);
    let groups = find_groups(&b);
    assert_eq!(groups.len(), 1);
    assert_eq!(groups[0].points.len(), 5);
    assert_eq!(groups[0].liberties, 1);
}

#[test]
fn diagonal_stones_are_separate_groups() {
    let b = board(&[
        "x.",
        ".x",
    ]);
    let groups = find_groups(&b);
    assert_eq!(groups.len(), 2);
    assert_eq!(groups[0].liberties, 2);
    assert_eq!(groups[1].liberties, 2);
}

#[test]
fn a_full_board_has_no_liberties() {
    let b = board(&[
        "xo",
        "ox",
    ]);
    let groups = find_groups(&b);
    assert_eq!(groups.len(), 4);
    assert!(groups.iter().all(|g| g.liberties == 0 && g.points.len() == 1));
}

#[test]
fn a_large_group_is_found_whole() {
    let mut b = Board::empty(19, 19);
    for x in 0..19 {
        for y in 0..19 {
            if (x + y) % 7 != 0 {
                b.set_point((x, y), Color(1));
            }
        }
    }
    let groups = find_groups(&b);
    let total: usize = groups.iter().map(|g| g.points.len()).sum();
    assert_eq!(total, b.points.iter().filter(|c| c.0 != 0).count());
    assert!(groups.iter().all(|g| g.liberties > 0 && g.team == Color(1)));
}

#[test]
fn dead_opponents_leave_and_lone_stones_score() {
    let mut b = board(&[
        "ox.o",
        "x.xo",
        "..xx",
    ]);
    let mut fog = None;
    let mut points = vec![10, 20];
    let (captures, revealed) = capture_opponents(&mut b, &mut fog, &mut points, Some(5), Color(1));
    assert_eq!(captures, 1);
    assert!(!revealed);
    assert_eq!(b.get_point((0, 0)), Color(0));
    assert_eq!(b.get_point((3, 0)), Color(2));
    assert_eq!(points, vec![15, 20]);
    let mut b = board(&[
        "ox.o",
        "x.xo",
        "..xx",
    ]);
    b.set_point((2, 0), Color(1));
    let mut points = vec![10, 20];
    let (captures, _) = capture_opponents(&mut b, &mut fog, &mut points, Some(5), Color(1));
    assert_eq!(captures, 3);
    assert_eq!(b.get_point((3, 0)), Color(0));
    assert_eq!(b.get_point((3, 1)), Color(0));
    assert_eq!(points, vec![15, 20]);
    let mut b = board(&["ox", "x."]);
    let mut points = vec![i32::MAX, 0];
    capture_opponents(&mut b, &mut fog, &mut points, Some(1), Color(1));
    assert_eq!(points, vec![i32::MIN, 0]);
    let mut b = board(&["ox", "x."]);
    let mut points = vec![3, 4];
    let (captures, _) = capture_opponents(&mut b, &mut fog, &mut points, None, Color(1));
    assert_eq!(captures, 1);
    assert_eq!(points, vec![3, 4]);
}

#[test]
fn a_third_team_beside_a_stone_spoils_the_bonus() {
    let mut b = board(&[
        ".x.",
        "xoz",
        ".x.",
    ]);
    let mut fog = None;
    let mut points = vec![0, 0, 0];
    let (captures, _) = capture_opponents(&mut b, &mut fog, &mut points, Some(5), Color(1));
    assert_eq!(captures, 1);
    assert_eq!(b.get_point((1, 1)), Color(0));
    assert_eq!(b.get_point((2, 1)), Color(3));
    assert_eq!(points, vec![0, 0, 0]);
}

#[test]
fn only_the_points_played_leave_a_dead_group_of_the_mover() {
    let mut b = board(&[
        "xxo",
        "oo.",
    ]);
    let mut fog = None;
    let mut played = GroupVec::from_slice(&[(1, 0), (2, 1)]);
    let revealed = capture_own(&mut b, &mut fog, Color(1), &mut played);
    assert!(!revealed);
    assert_eq!(b.get_point((1, 0)), Color(0));
    assert_eq!(b.get_point((0, 0)), Color(1));
    assert_eq!(played.to_vec(), vec![(2, 1)]);
}

#[test]
fn reveal_group_uncovers_the_group_and_its_neighbours() {
    let b = board(&[
        "x..",
        "...",
        "..o",
    ]);
    let groups = find_groups(&b);
    let mut fog = Some(VisibilityBoard::clear(3, 3));
    fog.as_mut().unwrap().set_point((1, 0), 4);
    fog.as_mut().unwrap().set_point((1, 1), 4);
    assert!(reveal_group(&mut fog, &groups[0], &b));
    assert_eq!(fog.as_ref().unwrap().get_point((1, 0)), 0);
    assert_eq!(fog.as_ref().unwrap().get_point((1, 1)), 4);
    assert!(!reveal_group(&mut fog, &groups[0], &b));
    assert!(!reveal_group(&mut None, &groups[1], &b));
}
