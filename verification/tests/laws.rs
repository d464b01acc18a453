use go_rules::board::{Board, Color};
use go_rules::game::{
    ActionChange, ActionKind, GameModifier, GameState, MakeActionError, Seat, SharedState, ZenGo,
};
use go_rules::groups::find_groups;
use go_rules::play::PlayState;

fn seats(teams: &[u8]) -> Vec<Seat> {
    teams
        .iter()
        .enumerate()
        .map(|(i, t)| Seat { player: Some(i as u64 + 1), team: Color(*t), resigned: false })
        .collect()
}

fn mover(shared: &SharedState) -> u64 {
    shared.seats[shared.turn].player.unwrap()
}

struct Snapshot {
    board: Board<Color>,
    fog: Option<Board<u16>>,
    points: Vec<i32>,
    turn: usize,
    passed: Vec<bool>,
    last: Option<Vec<(u32, u32)>>,
    history: usize,
    captures: usize,
    teams: Vec<Color>,
}

fn snapshot(shared: &SharedState, state: &PlayState) -> Snapshot {
    Snapshot {
        board: shared.board.clone(),
        fog: shared.board_visibility.clone(),
        points: shared.points.clone(),
        turn: shared.turn,
        passed: state.players_passed.clone(),
        last: state.last_stone.as_ref().map(|v| v.to_vec()),
        history: shared.board_history.len(),
        captures: shared.capture_count,
        teams: shared.seats.iter().map(|s| s.team).collect(),
    }
}

fn same(a: &Snapshot, b: &Snapshot) -> bool {
    a.board == b.board
        && a.fog == b.fog
        && a.points == b.points
        && a.turn == b.turn
        && a.passed == b.passed
        && a.last == b.last
        && a.history == b.history
        && a.captures == b.captures
        && a.teams == b.teams
}

fn last_entry_holds_the_game(shared: &SharedState, state: &PlayState) -> bool {
    let e = shared.board_history.last().unwrap();
    let recorded = match &e.state {
        GameState::Play(p) => {
            p.players_passed == state.players_passed
                && p.last_stone.as_ref().map(|v| v.to_vec())
                    == state.last_stone.as_ref().map(|v| v.to_vec())
        }
        GameState::Scoring(_) => false,
    };
    e.board == shared.board
        && e.board_visibility == shared.board_visibility
        && e.points == shared.points
        && e.turn == shared.turn
        && e.hash == shared.board.hash()
        && recorded
}

struct Dice(u64);

impl Dice {
    fn roll(&mut self, n: u32) -> u32 {
        self.0 ^= self.0 << 13;
        self.0 ^= self.0 >> 7;
        self.0 ^= self.0 << 17;
        ((self.0.wrapping_mul(0x2545_f491_4f6c_dd1d) >> 40) % n as u64) as u32
    }
}

fn play_at_random(mods: GameModifier, teams: &[u8], team_count: usize, size: u32, moves: usize, seed: u64) {
    let mut shared = SharedState::new(seats(teams), team_count, size, size, mods, false);
    let mut state = PlayState::new(teams.len());
    let mut dice = Dice(seed);
    for _ in 0..moves {
        let before = snapshot(&shared, &state);
        let who = mover(&shared);
        let (x, y) = (dice.roll(size + 1), dice.roll(size + 1));
        let r = state.make_action(&mut shared, who, ActionKind::Place(x, y));
        match r {
            Ok(_) => {
                assert!(find_groups(&shared.board).iter().all(|g| g.liberties > 0));
                assert_eq!(shared.board_history.len(), before.history + 1);
                assert!(last_entry_holds_the_game(&shared, &state));
                let n = shared.board_history.len();
                for e in &shared.board_history[..n - 1] {
                    assert!(e.board != shared.board, "a position was repeated");
                }
                if let Some(z) = shared.mods.zen_go {
                    let team = ((n - 1) % z.color_count as usize) as u8 + 1;
                    assert!(shared.seats.iter().all(|s| s.team == Color(team)));
                }
            }
            Err(_) => {
                assert!(same(&before, &snapshot(&shared, &state)));
            }
        }
    }
    assert!(shared.capture_count > 0);
}

#[test]
fn random_games_keep_the_laws() {
    play_at_random(GameModifier::default(), &[1, 2], 2, 5, 600, 0x9e37_79b9_7f4a_7c15);
    play_at_random(GameModifier::default(), &[1, 2, 3], 3, 4, 600, 0x1234_5678_9abc_def1);
    play_at_random(GameModifier::default(), &[1, 2, 1, 2], 2, 3, 400, 0x0fed_cba9_8765_4321);
}

#[test]
fn random_games_of_blocks_keep_the_laws() {
    let mods = GameModifier { pixel: true, ..GameModifier::default() };
    play_at_random(mods, &[1, 2], 2, 6, 600, 0x5555_aaaa_1357_2468);
}

#[test]
fn random_games_with_rotating_colours_keep_the_laws() {
    let mods = GameModifier { zen_go: Some(ZenGo { color_count: 3 }), ..GameModifier::default() };
    play_at_random(mods, &[1, 1, 1], 3, 5, 600, 0x0bad_cafe_dead_beef);
}

#[test]
fn refused_actions_change_nothing() {
    let mut shared = SharedState::new(seats(&[1, 2]), 2, 9, 9, GameModifier::default(), true);
    let mut state = PlayState::new(2);
    assert!(state.make_action(&mut shared, 1, ActionKind::Place(0, 1)).is_ok());
    assert!(state.make_action(&mut shared, 2, ActionKind::Place(5, 5)).is_ok());
    assert!(state.make_action(&mut shared, 1, ActionKind::Place(1, 0)).is_ok());
    let before = snapshot(&shared, &state);
    let refused = [
        (1, ActionKind::Place(3, 3), MakeActionError::NotTurn),
        (2, ActionKind::Place(9, 0), MakeActionError::OutOfBounds),
        (2, ActionKind::Place(5, 5), MakeActionError::PointOccupied),
        (2, ActionKind::Place(0, 0), MakeActionError::Suicide),
    ];
    for (who, action, error) in refused {
        let r = state.make_action(&mut shared, who, action);
        assert_eq!(r.err(), Some(error));
        assert!(same(&before, &snapshot(&shared, &state)));
    }
}

#[test]
fn undo_brings_back_the_position_before_a_capture() {
    let mut shared = SharedState::new(seats(&[1, 2]), 2, 9, 9, GameModifier::default(), true);
    let mut state = PlayState::new(2);
    for (who, x, y) in [(1, 0, 0), (2, 0, 1), (1, 5, 5)] {
        assert!(state.make_action(&mut shared, who, ActionKind::Place(x, y)).is_ok());
    }
    let before = snapshot(&shared, &state);
    let r = state.make_action(&mut shared, 2, ActionKind::Place(1, 0));
    assert!(matches!(r, Ok(ActionChange::NoChange)));
    assert_eq!(shared.capture_count, 1);
    assert_eq!(shared.board.get_point((0, 0)), Color(0));
    let r = state.make_action(&mut shared, 1, ActionKind::Cancel);
    assert!(matches!(r, Ok(ActionChange::NoChange)));
    let after = snapshot(&shared, &state);
    assert_eq!(after.board, before.board);
    assert_eq!(after.fog, before.fog);
    assert_eq!(after.points, before.points);
    assert_eq!(after.turn, before.turn);
    assert_eq!(after.passed, before.passed);
    assert_eq!(after.last, before.last);
    assert_eq!(after.history, before.history);
    assert_eq!(after.captures, 1);
}

#[test]
fn a_second_pass_of_a_team_marks_nothing_new() {
    let mut shared = SharedState::new(seats(&[1, 1, 2]), 2, 9, 9, GameModifier::default(), false);
    let mut state = PlayState::new(3);
    assert!(matches!(state.make_action(&mut shared, 1, ActionKind::Pass), Ok(ActionChange::NoChange)));
    assert_eq!(state.players_passed, vec![true, true, false]);
    assert!(matches!(state.make_action(&mut shared, 2, ActionKind::Pass), Ok(ActionChange::NoChange)));
    assert_eq!(state.players_passed, vec![true, true, false]);
    assert!(matches!(state.make_action(&mut shared, 3, ActionKind::Pass), Ok(ActionChange::PushState(_))));
    assert_eq!(state.players_passed, vec![false, false, false]);
}

#[test]
fn a_refused_ko_uncovers_nothing() {
    let mut shared = SharedState::new(seats(&[1, 2]), 2, 19, 19, GameModifier::default(), true);
    let mut state = PlayState::new(2);
    let moves = [
        (1, 1, 0), (2, 2, 0), (1, 0, 1), (2, 3, 1), (1, 1, 2), (2, 2, 2), (1, 10, 10), (2, 1, 1),
        (1, 2, 1),
    ];
    for (who, x, y) in moves {
        assert!(state.make_action(&mut shared, who, ActionKind::Place(x, y)).is_ok());
    }
    shared.board_visibility.as_mut().unwrap().set_point((2, 1), 0b10);
    shared.board_visibility.as_mut().unwrap().set_point((1, 1), 0b100);
    let before = snapshot(&shared, &state);
    let r = state.make_action(&mut shared, 2, ActionKind::Place(1, 1));
    assert!(matches!(r, Err(MakeActionError::Ko)));
    assert!(same(&before, &snapshot(&shared, &state)));
    assert_eq!(shared.board_visibility.as_ref().unwrap().get_point((2, 1)), 0b10);
    assert_eq!(shared.board_visibility.as_ref().unwrap().get_point((1, 1)), 0b100);
}

#[test]
fn a_refused_suicide_uncovers_nothing() {
    let mut shared = SharedState::new(seats(&[1, 2]), 2, 19, 19, GameModifier::default(), true);
    let mut state = PlayState::new(2);
    let moves = [(1, 10, 10), (2, 3, 2), (1, 10, 11), (2, 3, 4), (1, 10, 12), (2, 4, 3), (1, 11, 12), (2, 2, 3)];
    for (who, x, y) in moves {
        assert!(state.make_action(&mut shared, who, ActionKind::Place(x, y)).is_ok());
    }
    shared.board_visibility.as_mut().unwrap().set_point((3, 3), 4);
    let before = snapshot(&shared, &state);
    let r = state.make_action(&mut shared, 1, ActionKind::Place(3, 3));
    assert!(matches!(r, Err(MakeActionError::Suicide)));
    assert!(same(&before, &snapshot(&shared, &state)));
    assert_eq!(shared.board_visibility.as_ref().unwrap().get_point((3, 3)), 4);
    assert_eq!(shared.board.get_point((3, 3)), Color(0));
}

#[test]
fn a_suicide_that_reveals_a_neighbour_is_a_revelation() {
    let mut shared = SharedState::new(seats(&[1, 2]), 2, 19, 19, GameModifier::default(), true);
    let mut state = PlayState::new(2);
    let moves = [(1, 10, 10), (2, 3, 2), (1, 10, 11), (2, 3, 4), (1, 10, 12), (2, 4, 3), (1, 11, 12), (2, 2, 3)];
    for (who, x, y) in moves {
        assert!(state.make_action(&mut shared, who, ActionKind::Place(x, y)).is_ok());
    }
    shared.board_visibility.as_mut().unwrap().set_point((3, 2), 1);
    let before = snapshot(&shared, &state);
    let r = state.make_action(&mut shared, 1, ActionKind::Place(3, 3));
    assert!(matches!(r, Ok(ActionChange::NoChange)));
    let after = snapshot(&shared, &state);
    assert_eq!(after.board, before.board);
    assert_eq!(after.points, before.points);
    assert_eq!(after.turn, before.turn);
    assert_eq!(after.history, before.history);
    assert_eq!(shared.board_visibility.as_ref().unwrap().get_point((3, 2)), 0);
}

#[test]
fn a_pass_lets_a_position_return_beyond_the_window() {
    let mut shared = SharedState::new(seats(&[1, 2]), 2, 19, 19, GameModifier::default(), false);
    let mut state = PlayState::new(2);
    let moves = [
        (1, 1, 0), (2, 2, 0), (1, 0, 1), (2, 3, 1), (1, 1, 2), (2, 2, 2), (1, 10, 10), (2, 1, 1),
    ];
    for (who, x, y) in moves {
        assert!(state.make_action(&mut shared, who, ActionKind::Place(x, y)).is_ok());
    }
    let position = shared.board.clone();
    assert!(state.make_action(&mut shared, 1, ActionKind::Place(2, 1)).is_ok());
    assert!(state.make_action(&mut shared, 2, ActionKind::Pass).is_ok());
    assert!(state.make_action(&mut shared, 1, ActionKind::Pass).is_ok());
    let r = state.make_action(&mut shared, 2, ActionKind::Place(1, 1));
    assert!(matches!(r, Ok(ActionChange::NoChange)));
    assert_eq!(shared.board, position);
}
