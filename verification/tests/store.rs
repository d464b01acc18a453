use go_rules::game::{GameModifier, GameState};
use go_rules::game_store::{missing_window, Action, Effect, GameStore, Request};
use go_rules::game_view::{GameHistory, GameView, Profile};
use go_rules::play::PlayState;

fn game(room_id: u32, move_number: u32) -> GameView {
    GameView {
        room_id,
        members: vec![1, 2],
        seats: vec![(Some(1), 1), (Some(2), 2)],
        turn: 0,
        board: vec![0; 9],
        board_visibility: None,
        hidden_stones_left: 0,
        size: (3, 3),
        state: GameState::Play(PlayState::new(2)),
        mods: GameModifier::default(),
        points: vec![0, 0],
        move_number,
        history: None,
    }
}

fn position(move_number: u32) -> GameHistory {
    GameHistory {
        board: vec![move_number as u8; 9],
        board_visibility: None,
        last_stone: Some(vec![(1, 1)]),
        move_number,
    }
}

fn numbers(store: &GameStore) -> Vec<Option<u32>> {
    store.history.iter().map(|h| h.as_ref().map(|v| v.move_number)).collect()
}

#[test]
fn nick_or_prefers_the_nick() {
    let named = Profile { user_id: 1, nick: Some("ten".to_string()) };
    let unnamed = Profile { user_id: 2, nick: None };
    assert_eq!(named.nick_or("anonymous"), "ten");
    assert_eq!(unnamed.nick_or("anonymous"), "anonymous");
}

#[test]
fn new_store_is_empty() {
    let s = GameStore::new();
    assert!(s.game.is_none());
    assert!(s.history.is_empty());
    assert!(!s.history_pending);
    assert_eq!(s.wanted_history, None);
}

#[test]
fn missing_window_spans_the_gaps() {
    assert_eq!(missing_window(&vec![]), (0, 0));
    assert_eq!(missing_window(&vec![Some(position(0)), Some(position(1))]), (0, 0));
    assert_eq!(missing_window(&vec![Some(position(0)), None, Some(position(2)), None, Some(position(4))]), (1, 4));
    assert_eq!(missing_window(&vec![None, Some(position(1))]), (0, 1));
    assert_eq!(missing_window(&vec![Some(position(0)), None]), (1, 2));
}

#[test]
fn set_game_asks_for_the_hash_and_the_action() {
    let s = GameStore::new();
    let effects = s.handle_input(Request::SetGame(game(7, 3)));
    assert_eq!(effects.len(), 2);
    assert!(matches!(effects[0], Effect::SetHash(7)));
    assert!(matches!(&effects[1], Effect::Dispatch(Action::SetGame(g)) if g.room_id == 7 && g.move_number == 3));
}

#[test]
fn set_game_history_is_handed_on() {
    let s = GameStore::new();
    let effects = s.handle_input(Request::SetGameHistory(Some(position(4))));
    assert_eq!(effects.len(), 1);
    assert!(matches!(&effects[0], Effect::Dispatch(Action::SetGameHistory(Some(h))) if h.move_number == 4));
    let effects = s.handle_input(Request::SetGameHistory(None));
    assert!(matches!(&effects[0], Effect::Dispatch(Action::SetGameHistory(None))));
}

#[test]
fn get_board_at_only_notes_the_wish_while_pending() {
    let mut s = GameStore::new();
    s.history_pending = true;
    let effects = s.handle_input(Request::GetBoardAt(3));
    assert_eq!(effects.len(), 1);
    assert!(matches!(effects[0], Effect::Dispatch(Action::SetHistoryPending(3, true))));
}

#[test]
fn get_board_at_fetches_near_the_end_of_the_cache() {
    let s = GameStore::new();
    let effects = s.handle_input(Request::GetBoardAt(3));
    assert_eq!(effects.len(), 2);
    assert!(matches!(effects[0], Effect::FetchBoards(0, 13)));
    assert!(matches!(effects[1], Effect::Dispatch(Action::SetHistoryPending(3, true))));
}

#[test]
fn get_board_at_shows_what_the_cache_holds() {
    let mut s = GameStore::new();
    for i in 0..20 {
        s.history.push(Some(position(i)));
    }
    let effects = s.handle_input(Request::GetBoardAt(3));
    assert_eq!(effects.len(), 2);
    assert!(matches!(effects[0], Effect::Dispatch(Action::SetHistoryPending(3, false))));
    assert!(matches!(&effects[1], Effect::Dispatch(Action::SetGameHistory(Some(h))) if h.move_number == 3 && h.board == vec![3u8; 9]));
    let effects = s.handle_input(Request::GetBoardAt(16));
    assert_eq!(effects.len(), 4);
    assert!(matches!(effects[0], Effect::FetchBoards(0, 26)));
    assert!(matches!(effects[1], Effect::Dispatch(Action::SetHistoryPending(16, true))));
    assert!(matches!(effects[2], Effect::Dispatch(Action::SetHistoryPending(16, false))));
}

#[test]
fn get_board_at_fetches_up_to_the_last_gap() {
    let mut s = GameStore::new();
    for i in 0..30 {
        s.history.push(if i == 4 || i == 8 { None } else { Some(position(i)) });
    }
    let effects = s.handle_input(Request::GetBoardAt(5));
    assert_eq!(effects.len(), 4);
    assert!(matches!(effects[0], Effect::FetchBoards(4, 9)));
    let effects = s.handle_input(Request::GetBoardAt(4));
    assert_eq!(effects.len(), 2);
    assert!(matches!(effects[0], Effect::FetchBoards(4, 9)));
    assert!(matches!(effects[1], Effect::Dispatch(Action::SetHistoryPending(4, true))));
    let effects = s.handle_input(Request::GetBoardAt(20));
    assert_eq!(effects.len(), 2);
    assert!(matches!(effects[0], Effect::Dispatch(Action::SetHistoryPending(20, false))));
}

#[test]
fn scan_board_steps_from_the_wanted_position() {
    let mut s = GameStore::new();
    assert!(s.handle_input(Request::ScanBoard(-1)).is_empty());
    s.game = Some(game(1, 10));
    for i in 0..=10 {
        s.history.push(Some(position(i)));
    }
    let effects = s.handle_input(Request::ScanBoard(-1));
    assert!(matches!(effects.last(), Some(Effect::Dispatch(Action::SetGameHistory(Some(h)))) if h.move_number == 9));
    assert!(s.handle_input(Request::ScanBoard(1)).is_empty());
    s.wanted_history = Some(2);
    let effects = s.handle_input(Request::ScanBoard(-5));
    assert!(matches!(effects.last(), Some(Effect::Dispatch(Action::SetGameHistory(Some(h)))) if h.move_number == 0));
    let effects = s.handle_input(Request::ScanBoard(3));
    assert!(matches!(effects.last(), Some(Effect::Dispatch(Action::SetGameHistory(Some(h)))) if h.move_number == 5));
    assert!(s.handle_input(Request::ScanBoard(9)).is_empty());
}

#[test]
fn scan_board_reads_move_numbers_as_signed() {
    let mut s = GameStore::new();
    s.game = Some(game(1, 5));
    s.wanted_history = Some(3_000_000_000);
    assert!(s.can_handle(&Request::ScanBoard(0)));
    let effects = s.handle_input(Request::ScanBoard(0));
    assert_eq!(effects.len(), 2);
    assert!(matches!(effects[0], Effect::FetchBoards(0, 10)));
    assert!(matches!(effects[1], Effect::Dispatch(Action::SetHistoryPending(0, true))));
    s.wanted_history = None;
    s.game = Some(game(1, 3_000_000_000));
    assert!(s.handle_input(Request::ScanBoard(0)).is_empty());
    assert!(s.handle_input(Request::ScanBoard(i32::MAX)).is_empty());
}

#[test]
fn can_handle_tells_what_leaves_the_range() {
    let mut s = GameStore::new();
    assert!(s.can_handle(&Request::GetBoardAt(u32::MAX - 10)));
    assert!(!s.can_handle(&Request::GetBoardAt(u32::MAX - 9)));
    assert!(s.can_handle(&Request::ScanBoard(i32::MIN)));
    assert!(s.can_handle(&Request::SetGameHistory(None)));
    s.game = Some(game(1, 5));
    assert!(s.can_handle(&Request::ScanBoard(i32::MAX - 5)));
    assert!(!s.can_handle(&Request::ScanBoard(i32::MAX - 4)));
    assert!(s.can_handle(&Request::ScanBoard(i32::MIN)));
    s.wanted_history = Some(u32::MAX);
    assert!(s.can_handle(&Request::ScanBoard(i32::MIN + 1)));
    assert!(!s.can_handle(&Request::ScanBoard(i32::MIN)));
    s.history_pending = true;
    assert!(s.can_handle(&Request::GetBoardAt(u32::MAX)));
    let effects = s.handle_input(Request::GetBoardAt(u32::MAX));
    assert_eq!(effects.len(), 1);
    assert!(matches!(effects[0], Effect::Dispatch(Action::SetHistoryPending(u32::MAX, true))));
}

#[test]
fn reduce_set_game_of_the_same_room_keeps_what_is_shown() {
    let mut s = GameStore::new();
    s.reduce(Action::SetGame(game(1, 5)));
    assert_eq!(s.game.as_ref().unwrap().move_number, 5);
    for i in 0..8 {
        s.reduce(Action::SetGameHistory(Some(position(i))));
    }
    s.reduce(Action::SetHistoryPending(2, true));
    s.reduce(Action::SetGameHistory(Some(position(2))));
    assert_eq!(s.game.as_ref().unwrap().history.as_ref().unwrap().move_number, 2);
    assert!(!s.history_pending);
    s.reduce(Action::SetGame(game(1, 6)));
    assert_eq!(s.game.as_ref().unwrap().move_number, 6);
    assert_eq!(s.game.as_ref().unwrap().history.as_ref().unwrap().move_number, 2);
    assert_eq!(numbers(&s), (0..6).map(Some).collect::<Vec<_>>());
    assert_eq!(s.wanted_history, Some(2));
    s.reduce(Action::SetGame(game(1, 9)));
    assert_eq!(s.history.len(), 6);
}

#[test]
fn reduce_set_game_of_another_room_empties_the_cache() {
    let mut s = GameStore::new();
    s.reduce(Action::SetGame(game(1, 5)));
    s.reduce(Action::SetGameHistory(Some(position(1))));
    s.reduce(Action::SetHistoryPending(1, true));
    s.reduce(Action::SetGame(game(2, 0)));
    assert_eq!(s.game.as_ref().unwrap().room_id, 2);
    assert!(s.game.as_ref().unwrap().history.is_none());
    assert!(s.history.is_empty());
    assert!(!s.history_pending);
    assert_eq!(s.wanted_history, None);
}

#[test]
fn reduce_set_game_history_stores_under_the_move_number() {
    let mut s = GameStore::new();
    s.reduce(Action::SetGameHistory(Some(position(3))));
    assert!(s.history.is_empty());
    s.reduce(Action::SetGame(game(1, 5)));
    s.reduce(Action::SetGameHistory(Some(position(3))));
    assert_eq!(numbers(&s), vec![None, None, None, Some(3)]);
    assert!(s.game.as_ref().unwrap().history.is_none());
    s.reduce(Action::SetGameHistory(Some(position(1))));
    assert_eq!(numbers(&s), vec![None, Some(1), None, Some(3)]);
}

#[test]
fn reduce_shows_the_game_itself_at_its_last_move() {
    let mut s = GameStore::new();
    s.reduce(Action::SetGame(game(1, 5)));
    s.reduce(Action::SetHistoryPending(3, true));
    assert!(s.history_pending);
    assert_eq!(s.wanted_history, Some(3));
    s.reduce(Action::SetGameHistory(Some(position(4))));
    assert!(s.history_pending);
    assert!(s.game.as_ref().unwrap().history.is_none());
    s.reduce(Action::SetGameHistory(Some(position(3))));
    assert!(!s.history_pending);
    assert_eq!(s.game.as_ref().unwrap().history.as_ref().unwrap().move_number, 3);
    s.reduce(Action::SetHistoryPending(5, false));
    assert!(!s.history_pending);
    s.reduce(Action::SetGameHistory(Some(position(5))));
    assert!(s.game.as_ref().unwrap().history.is_none());
    assert_eq!(s.history.len(), 6);
    s.reduce(Action::SetHistoryPending(9, true));
    s.reduce(Action::SetGameHistory(None));
    assert!(!s.history_pending);
    assert!(s.game.as_ref().unwrap().history.is_none());
    assert_eq!(s.wanted_history, Some(9));
}

#[test]
fn game_history_clone_is_equal() {
    let h = GameHistory {
        board: vec![1, 2, 0],
        board_visibility: Some(vec![0, 7, 0]),
        last_stone: Some(vec![(0, 0), (1, 0)]),
        move_number: 12,
    };
    let c = h.clone();
    assert_eq!(c.board, h.board);
    assert_eq!(c.board_visibility, h.board_visibility);
    assert_eq!(c.last_stone, h.last_stone);
    assert_eq!(c.move_number, 12);
}
