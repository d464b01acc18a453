use go_rules::board::{Board, Color};
use go_rules::game::{
    get_active_seat, ActionKind, GameModifier, GameState, Seat, SharedState, ZenGo,
};
use go_rules::play::PlayState;

fn seats() -> Vec<Seat> {
    vec![
        Seat { player: Some(1), team: Color(1), resigned: false },
        Seat { player: None, team: Color(2), resigned: false },
    ]
}

fn start() -> (SharedState, PlayState) {
    (SharedState::new(seats(), 2, 9, 9, GameModifier::default(), true), PlayState::new(2))
}

#[test]
fn a_new_game_is_well_formed() {
    let (shared, state) = start();
    assert!(shared.is_wf());
    assert!(state.is_ready(&shared));
    assert!(PlayState::can_count(&shared));
    assert_eq!(shared.turn, 0);
    assert_eq!(shared.capture_count, 0);
    assert_eq!(shared.points, vec![0, 0]);
    assert_eq!(shared.board, Board::empty(9, 9));
    assert_eq!(shared.board_visibility, Some(Board::new(9, 9, 0u16)));
    assert_eq!(shared.board_history.len(), 1);
    let entry = &shared.board_history[0];
    assert_eq!(entry.hash, shared.board.hash());
    assert_eq!(entry.board, shared.board);
    assert_eq!(entry.turn, 0);
    assert!(matches!(&entry.state, GameState::Play(p) if p.players_passed == vec![false, false] && p.last_stone.is_none()));
    assert_eq!(get_active_seat(&shared), seats()[0]);
}

#[test]
fn new_play_state_has_a_mark_for_each_seat() {
    let state = PlayState::new(3);
    assert_eq!(state.players_passed, vec![false, false, false]);
    assert!(state.last_stone.is_none());
    assert!(PlayState::new(0).players_passed.is_empty());
}

#[test]
fn a_game_stays_well_formed() {
    let (mut shared, mut state) = start();
    assert!(state.make_action(&mut shared, 1, ActionKind::Place(2, 2)).is_ok());
    assert!(state.is_ready(&shared));
    shared.seats[1].player = Some(2);
    assert!(state.make_action(&mut shared, 2, ActionKind::Pass).is_ok());
    assert!(state.is_ready(&shared));
    assert!(state.make_action(&mut shared, 1, ActionKind::Cancel).is_ok());
    assert!(state.is_ready(&shared));
}

#[test]
fn what_is_not_well_formed_is_told() {
    let (mut shared, state) = start();
    shared.turn = 2;
    assert!(!shared.is_wf());
    let (mut shared, state2) = start();
    shared.board.set_point((0, 0), Color(1));
    assert!(!shared.is_wf());
    let (mut shared, _) = start();
    shared.points[0] = 3;
    assert!(!shared.is_wf());
    let (mut shared, _) = start();
    shared.board_history[0].hash ^= 1;
    assert!(!shared.is_wf());
    let (mut shared, _) = start();
    shared.seats[1].team = Color(3);
    assert!(!shared.is_wf());
    let (mut shared, _) = start();
    shared.seats[0].team = Color(0);
    assert!(!shared.is_wf());
    let (mut shared, _) = start();
    shared.mods.zen_go = Some(ZenGo { color_count: 0 });
    assert!(!shared.is_wf());
    let (mut shared, _) = start();
    shared.mods.zen_go = Some(ZenGo { color_count: 3 });
    assert!(!shared.is_wf());
    let (mut shared, _) = start();
    shared.board_visibility = None;
    assert!(!shared.is_wf());
    let (mut shared, _) = start();
    shared.board_visibility = Some(Board::new(9, 8, 0u16));
    assert!(!shared.is_wf());
    let (mut shared, _) = start();
    shared.board.points.pop();
    assert!(!shared.is_wf());
    let (mut shared, _) = start();
    shared.board_history.clear();
    assert!(!shared.is_wf());
    let (mut shared, _) = start();
    shared.board_history[0].turn = 1;
    assert!(!shared.is_wf());
    let (shared, _) = start();
    assert!(!PlayState::new(3).is_ready(&shared));
    assert!(state.is_ready(&shared));
    assert!(state2.is_ready(&shared));
    let (mut shared, _) = start();
    shared.capture_count = usize::MAX - 80;
    assert!(!PlayState::can_count(&shared));
    shared.capture_count = usize::MAX - 81;
    assert!(PlayState::can_count(&shared));
}

#[test]
fn point_mut_writes_one_cell() {
    let mut b = Board::empty(3, 3);
    *b.point_mut((1, 2)) = Color(2);
    assert_eq!(b.get_point((1, 2)), Color(2));
    assert_eq!(b.points.iter().filter(|c| c.0 != 0).count(), 1);
    assert!(b.is_wf());
    assert!(b.same_shape(&Board::new(3, 3, 0u16)));
    assert!(!b.same_shape(&Board::new(3, 4, 0u16)));
}
