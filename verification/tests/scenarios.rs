use go_rules::board::{Board, Color};
use go_rules::game::{
    ActionChange, ActionKind, GameModifier, GameState, MakeActionError, NPlusOne, Seat, SharedState,
    ZenGo,
};
use go_rules::play::PlayState;

const BLACK: u64 = 1;
const WHITE: u64 = 2;

fn two_seats() -> Vec<Seat> {
    vec![
        Seat { player: Some(BLACK), team: Color(1), resigned: false },
        Seat { player: Some(WHITE), team: Color(2), resigned: false },
    ]
}

fn game(mods: GameModifier, fog: bool) -> (SharedState, PlayState) {
    (SharedState::new(two_seats(), 2, 19, 19, mods, fog), PlayState::new(2))
}

fn place(state: &mut PlayState, shared: &mut SharedState, who: u64, x: u32, y: u32) {
    let r = state.make_action(shared, who, ActionKind::Place(x, y));
    assert!(matches!(r, Ok(ActionChange::NoChange)), "placing at ({}, {}) failed", x, y);
}

fn pass(state: &mut PlayState, shared: &mut SharedState, who: u64) {
    let r = state.make_action(shared, who, ActionKind::Pass);
    assert!(r.is_ok());
}

fn stones_on(board: &Board<Color>) -> usize {
    board.points.iter().filter(|c| c.0 != 0).count()
}

#[test]
fn simple_capture() {
    let (mut shared, mut state) = game(GameModifier::default(), false);
    place(&mut state, &mut shared, BLACK, 3, 3);
    place(&mut state, &mut shared, WHITE, 3, 4);
    pass(&mut state, &mut shared, BLACK);
    place(&mut state, &mut shared, WHITE, 4, 3);
    pass(&mut state, &mut shared, BLACK);
    place(&mut state, &mut shared, WHITE, 2, 3);
    pass(&mut state, &mut shared, BLACK);
    assert_eq!(shared.board.get_point((3, 3)), Color(1));
    place(&mut state, &mut shared, WHITE, 3, 2);
    assert_eq!(shared.board.get_point((3, 3)), Color(0));
    assert_eq!(shared.points, vec![0, 0]);
    assert_eq!(shared.capture_count, 1);
    assert_eq!(shared.turn, 0);
    assert_eq!(stones_on(&shared.board), 4);
    assert_eq!(state.last_stone.as_ref().unwrap().to_vec(), vec![(3, 3 - 1)]);
}

#[test]
fn suicide_rejected() {
    let (mut shared, mut state) = game(GameModifier::default(), false);
    place(&mut state, &mut shared, BLACK, 10, 10);
    place(&mut state, &mut shared, WHITE, 0, 1);
    place(&mut state, &mut shared, BLACK, 10, 11);
    place(&mut state, &mut shared, WHITE, 1, 0);
    let board = shared.board.clone();
    let history = shared.board_history.len();
    let r = state.make_action(&mut shared, BLACK, ActionKind::Place(0, 0));
    assert!(matches!(r, Err(MakeActionError::Suicide)));
    assert_eq!(shared.board, board);
    assert_eq!(shared.board_history.len(), history);
    assert_eq!(shared.turn, 0);
    assert_eq!(shared.capture_count, 0);
}

fn ko_position() -> (SharedState, PlayState) {
    let (mut shared, mut state) = game(GameModifier::default(), false);
    place(&mut state, &mut shared, BLACK, 1, 0);
    place(&mut state, &mut shared, WHITE, 2, 0);
    place(&mut state, &mut shared, BLACK, 0, 1);
    place(&mut state, &mut shared, WHITE, 3, 1);
    place(&mut state, &mut shared, BLACK, 1, 2);
    place(&mut state, &mut shared, WHITE, 2, 2);
    place(&mut state, &mut shared, BLACK, 10, 10);
    place(&mut state, &mut shared, WHITE, 1, 1);
    (shared, state)
}

#[test]
fn ko() {
    let (mut shared, mut state) = ko_position();
    place(&mut state, &mut shared, BLACK, 2, 1);
    assert_eq!(shared.board.get_point((1, 1)), Color(0));
    assert_eq!(shared.capture_count, 1);
    let board = shared.board.clone();
    let history = shared.board_history.len();
    let r = state.make_action(&mut shared, WHITE, ActionKind::Place(1, 1));
    assert!(matches!(r, Err(MakeActionError::Ko)));
    assert_eq!(shared.board, board);
    assert_eq!(shared.board_history.len(), history);
    assert_eq!(shared.capture_count, 1);
    assert_eq!(shared.turn, 1);
}

#[test]
fn ko_may_be_retaken_after_a_move_elsewhere() {
    let (mut shared, mut state) = ko_position();
    place(&mut state, &mut shared, BLACK, 2, 1);
    place(&mut state, &mut shared, WHITE, 15, 15);
    place(&mut state, &mut shared, BLACK, 15, 16);
    place(&mut state, &mut shared, WHITE, 1, 1);
    assert_eq!(shared.board.get_point((2, 1)), Color(0));
    assert_eq!(shared.board.get_point((1, 1)), Color(2));
    assert_eq!(shared.capture_count, 2);
}

#[test]
fn pixel_mode() {
    let mods = GameModifier { pixel: true, ..GameModifier::default() };
    let (mut shared, mut state) = game(mods, false);
    place(&mut state, &mut shared, BLACK, 1, 1);
    for p in [(0, 0), (1, 0), (0, 1), (1, 1)] {
        assert_eq!(shared.board.get_point(p), Color(1));
    }
    assert_eq!(stones_on(&shared.board), 4);
    assert_eq!(
        state.last_stone.as_ref().unwrap().to_vec(),
        vec![(0, 0), (1, 0), (0, 1), (1, 1)]
    );
    let r = state.make_action(&mut shared, WHITE, ActionKind::Place(1, 1));
    assert!(matches!(r, Err(MakeActionError::PointOccupied)));
    assert_eq!(stones_on(&shared.board), 4);
    assert_eq!(shared.turn, 1);
}

#[test]
fn pixel_mode_at_the_corner_and_beyond() {
    let mods = GameModifier { pixel: true, ..GameModifier::default() };
    let (mut shared, mut state) = game(mods, false);
    place(&mut state, &mut shared, BLACK, 0, 0);
    assert_eq!(shared.board.get_point((0, 0)), Color(1));
    assert_eq!(stones_on(&shared.board), 1);
    place(&mut state, &mut shared, WHITE, 19, 19);
    assert_eq!(shared.board.get_point((18, 18)), Color(2));
    assert_eq!(stones_on(&shared.board), 2);
    let r = state.make_action(&mut shared, BLACK, ActionKind::Place(20, 3));
    assert!(matches!(r, Err(MakeActionError::OutOfBounds)));
    place(&mut state, &mut shared, BLACK, 1, 1);
    assert_eq!(stones_on(&shared.board), 5);
    assert_eq!(state.last_stone.as_ref().unwrap().to_vec(), vec![(1, 0), (0, 1), (1, 1)]);
}

#[test]
fn n_plus_one_extra_turn() {
    let mods = GameModifier { n_plus_one: Some(NPlusOne { length: 4 }), ..GameModifier::default() };
    let (mut shared, mut state) = game(mods, true);
    place(&mut state, &mut shared, BLACK, 0, 0);
    place(&mut state, &mut shared, WHITE, 10, 0);
    place(&mut state, &mut shared, BLACK, 1, 1);
    place(&mut state, &mut shared, WHITE, 12, 5);
    place(&mut state, &mut shared, BLACK, 2, 2);
    place(&mut state, &mut shared, WHITE, 15, 9);
    for p in [(0, 0), (1, 1), (2, 2), (7, 7)] {
        shared.board_visibility.as_mut().unwrap().set_point(p, 2);
    }
    assert_eq!(shared.turn, 0);
    place(&mut state, &mut shared, BLACK, 3, 3);
    assert_eq!(shared.turn, 0);
    assert_eq!(state.last_stone.as_ref().unwrap().to_vec(), vec![(3, 3)]);
    let fog = shared.board_visibility.as_ref().unwrap();
    for p in [(0, 0), (1, 1), (2, 2), (3, 3)] {
        assert_eq!(fog.get_point(p), 0);
    }
    assert_eq!(fog.get_point((7, 7)), 2);
    place(&mut state, &mut shared, BLACK, 5, 9);
    assert_eq!(shared.turn, 1);
}

#[test]
fn cancel_round_trip() {
    let (mut shared, mut state) = game(GameModifier::default(), true);
    place(&mut state, &mut shared, BLACK, 3, 3);
    place(&mut state, &mut shared, WHITE, 4, 4);
    place(&mut state, &mut shared, BLACK, 5, 5);
    let board = shared.board.clone();
    let fog = shared.board_visibility.clone();
    let points = shared.points.clone();
    let turn = shared.turn;
    let passed = state.players_passed.clone();
    let last = state.last_stone.as_ref().map(|v| v.to_vec());
    let history = shared.board_history.len();
    pass(&mut state, &mut shared, WHITE);
    assert_eq!(shared.board_history.len(), history + 1);
    assert_eq!(state.players_passed, vec![false, true]);
    let r = state.make_action(&mut shared, BLACK, ActionKind::Cancel);
    assert!(matches!(r, Ok(ActionChange::NoChange)));
    assert_eq!(shared.board, board);
    assert_eq!(shared.board_visibility, fog);
    assert_eq!(shared.points, points);
    assert_eq!(shared.turn, turn);
    assert_eq!(state.players_passed, passed);
    assert_eq!(state.last_stone.as_ref().map(|v| v.to_vec()), last);
    assert_eq!(shared.board_history.len(), history);
}

#[test]
fn cancel_at_the_start_is_refused() {
    let (mut shared, mut state) = game(GameModifier::default(), false);
    let r = state.make_action(&mut shared, BLACK, ActionKind::Cancel);
    assert!(matches!(r, Err(MakeActionError::OutOfBounds)));
    assert_eq!(shared.board_history.len(), 1);
}

#[test]
fn not_turn() {
    let (mut shared, mut state) = game(GameModifier::default(), false);
    let r = state.make_action(&mut shared, WHITE, ActionKind::Place(3, 3));
    assert!(matches!(r, Err(MakeActionError::NotTurn)));
    assert_eq!(stones_on(&shared.board), 0);
    let r = state.make_action(&mut shared, 77, ActionKind::Pass);
    assert!(matches!(r, Err(MakeActionError::NotTurn)));
    assert_eq!(shared.board_history.len(), 1);
}

#[test]
fn out_of_bounds_and_occupied() {
    let (mut shared, mut state) = game(GameModifier::default(), false);
    let r = state.make_action(&mut shared, BLACK, ActionKind::Place(19, 0));
    assert!(matches!(r, Err(MakeActionError::OutOfBounds)));
    place(&mut state, &mut shared, BLACK, 18, 18);
    let r = state.make_action(&mut shared, WHITE, ActionKind::Place(18, 18));
    assert!(matches!(r, Err(MakeActionError::PointOccupied)));
    assert_eq!(shared.turn, 1);
    assert_eq!(shared.board_history.len(), 2);
}

#[test]
fn two_passes_ask_for_scoring() {
    let (mut shared, mut state) = game(GameModifier::default(), false);
    place(&mut state, &mut shared, BLACK, 3, 3);
    let r = state.make_action(&mut shared, WHITE, ActionKind::Pass);
    assert!(matches!(r, Ok(ActionChange::NoChange)));
    assert_eq!(state.players_passed, vec![false, true]);
    let r = state.make_action(&mut shared, BLACK, ActionKind::Pass);
    match r {
        Ok(ActionChange::PushState(GameState::Scoring(s))) => {
            assert_eq!(s.board, shared.board);
            assert_eq!(s.seat_count, 2);
            assert_eq!(s.points, vec![0, 0]);
        }
        _ => panic!("scoring was not asked for"),
    }
    assert_eq!(state.players_passed, vec![false, false]);
    assert_eq!(shared.board_history.len(), 4);
    assert_eq!(shared.turn, 1);
}

#[test]
fn pass_marks_every_seat_of_the_team() {
    let seats = vec![
        Seat { player: Some(1), team: Color(1), resigned: false },
        Seat { player: Some(2), team: Color(2), resigned: false },
        Seat { player: Some(3), team: Color(1), resigned: false },
        Seat { player: Some(4), team: Color(2), resigned: false },
    ];
    let mut shared = SharedState::new(seats, 2, 9, 9, GameModifier::default(), false);
    let mut state = PlayState::new(4);
    pass(&mut state, &mut shared, 1);
    assert_eq!(state.players_passed, vec![true, false, true, false]);
    place(&mut state, &mut shared, 2, 4, 4);
    assert_eq!(state.players_passed, vec![false, false, false, false]);
    pass(&mut state, &mut shared, 3);
    assert_eq!(state.players_passed, vec![true, false, true, false]);
    let r = state.make_action(&mut shared, 4, ActionKind::Pass);
    assert!(matches!(r, Ok(ActionChange::PushState(_))));
    assert_eq!(shared.turn, 0);
}

#[test]
fn ponnuki_bonus() {
    let mods = GameModifier { ponnuki_is_points: Some(7), ..GameModifier::default() };
    let (mut shared, mut state) = game(mods, false);
    place(&mut state, &mut shared, BLACK, 3, 3);
    place(&mut state, &mut shared, WHITE, 3, 4);
    pass(&mut state, &mut shared, BLACK);
    place(&mut state, &mut shared, WHITE, 4, 3);
    pass(&mut state, &mut shared, BLACK);
    place(&mut state, &mut shared, WHITE, 2, 3);
    pass(&mut state, &mut shared, BLACK);
    place(&mut state, &mut shared, WHITE, 3, 2);
    assert_eq!(shared.points, vec![0, 7]);
    assert_eq!(shared.capture_count, 1);
}

#[test]
fn capture_of_a_group_of_two_earns_no_bonus() {
    let mods = GameModifier { ponnuki_is_points: Some(7), ..GameModifier::default() };
    let (mut shared, mut state) = game(mods, false);
    place(&mut state, &mut shared, BLACK, 0, 0);
    place(&mut state, &mut shared, WHITE, 0, 1);
    place(&mut state, &mut shared, BLACK, 1, 0);
    place(&mut state, &mut shared, WHITE, 1, 1);
    pass(&mut state, &mut shared, BLACK);
    place(&mut state, &mut shared, WHITE, 2, 0);
    assert_eq!(shared.board.get_point((0, 0)), Color(0));
    assert_eq!(shared.board.get_point((1, 0)), Color(0));
    assert_eq!(shared.points, vec![0, 0]);
    assert_eq!(shared.capture_count, 2);
}

#[test]
fn zen_rotation() {
    let mods = GameModifier { zen_go: Some(ZenGo { color_count: 2 }), ..GameModifier::default() };
    let (mut shared, mut state) = game(mods, false);
    place(&mut state, &mut shared, BLACK, 3, 3);
    assert_eq!(shared.board.get_point((3, 3)), Color(1));
    assert!(shared.seats.iter().all(|s| s.team == Color(2)));
    place(&mut state, &mut shared, WHITE, 4, 4);
    assert_eq!(shared.board.get_point((4, 4)), Color(2));
    assert!(shared.seats.iter().all(|s| s.team == Color(1)));
    pass(&mut state, &mut shared, BLACK);
    assert!(shared.seats.iter().all(|s| s.team == Color(2)));
    let r = state.make_action(&mut shared, WHITE, ActionKind::Cancel);
    assert!(r.is_ok());
    assert!(shared.seats.iter().all(|s| s.team == Color(1)));
    assert_eq!(shared.board_history.len(), 3);
}

#[test]
fn hidden_stone_is_revealed_instead_of_placed() {
    let (mut shared, mut state) = game(GameModifier::default(), true);
    place(&mut state, &mut shared, BLACK, 3, 3);
    shared.board_visibility.as_mut().unwrap().set_point((3, 3), 0b100);
    let history = shared.board_history.len();
    let r = state.make_action(&mut shared, WHITE, ActionKind::Place(3, 3));
    assert!(matches!(r, Ok(ActionChange::NoChange)));
    assert_eq!(shared.board.get_point((3, 3)), Color(1));
    assert_eq!(shared.board_visibility.as_ref().unwrap().get_point((3, 3)), 0);
    assert_eq!(state.last_stone.as_ref().unwrap().to_vec(), vec![(3, 3)]);
    assert_eq!(shared.turn, 1);
    assert_eq!(shared.board_history.len(), history);
    let r = state.make_action(&mut shared, WHITE, ActionKind::Place(3, 3));
    assert!(matches!(r, Err(MakeActionError::PointOccupied)));
}

#[test]
fn capture_reveals_the_stone_and_its_neighbours() {
    let (mut shared, mut state) = game(GameModifier::default(), true);
    place(&mut state, &mut shared, BLACK, 0, 0);
    place(&mut state, &mut shared, WHITE, 0, 1);
    place(&mut state, &mut shared, BLACK, 10, 10);
    {
        let fog = shared.board_visibility.as_mut().unwrap();
        fog.set_point((0, 0), 1);
        fog.set_point((0, 1), 1);
        fog.set_point((10, 10), 1);
    }
    place(&mut state, &mut shared, WHITE, 1, 0);
    let fog = shared.board_visibility.as_ref().unwrap();
    assert_eq!(shared.board.get_point((0, 0)), Color(0));
    assert_eq!(fog.get_point((0, 0)), 0);
    assert_eq!(fog.get_point((0, 1)), 0);
    assert_eq!(fog.get_point((10, 10)), 1);
    assert_eq!(shared.capture_count, 1);
}
