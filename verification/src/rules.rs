//! What each action does to a game, stated over the mathematical content of its state.

use vstd::prelude::*;
use crate::board::{adjacent, board_hash, Color, Grid};
use crate::game::{
    ChangeView, GameModifier, GameStateView, HistoryView, MakeActionError, ScoringView, Seat,
    SharedView,
};
use crate::groups::has_liberty;
use crate::n_plus_one::{extra_turn, shown};
use crate::play::PlayView;
use crate::point_list::Point;
use crate::visibility::{hides_any, wiped};

verus! {

/// The number of stones among the cells.
pub open spec fn count_stones(cells: Seq<Color>) -> nat
    decreases cells.len(),
{
    if cells.len() == 0 {
        0
    } else {
        count_stones(cells.drop_last()) + if cells.last() != Color(0) {
            1nat
        } else {
            0nat
        }
    }
}

/// The number of stones on the board.
pub open spec fn stones(g: Grid<Color>) -> nat {
    count_stones(g.cells)
}

/// The stones of teams other than `team` whose group has no liberty.
pub open spec fn dead_opponents(g: Grid<Color>, team: Color) -> Set<Point> {
    Set::new(
        |p: Point| g.contains(p) && g.at(p) != Color(0) && g.at(p) != team && !has_liberty(g, p),
    )
}

/// The stones of `team` whose group has no liberty.
pub open spec fn dead_own(g: Grid<Color>, team: Color) -> Set<Point> {
    Set::new(|p: Point| g.contains(p) && g.at(p) == team && !has_liberty(g, p))
}

/// The cells of `s` on the board, and the cells on the board adjacent to one of them.
pub open spec fn touched(g: Grid<Color>, s: Set<Point>) -> Set<Point> {
    Set::new(
        |q: Point|
            g.contains(q) && (s.contains(q) || exists|r: Point|
                s.contains(r) && #[trigger] adjacent(r, q)),
    )
}

/// Whether `p` holds a stone of another team than `team`, with stones of `team` on every
/// neighbouring cell of the board.
pub open spec fn ponnuki(g: Grid<Color>, team: Color, p: Point) -> bool {
    &&& g.contains(p)
    &&& g.at(p) != Color(0)
    &&& g.at(p) != team
    &&& forall|q: Point| g.contains(q) && #[trigger] adjacent(p, q) ==> g.at(q) == team
}

/// The number of cells among the first `n` of the board, row by row, where `ponnuki` holds.
pub open spec fn ponnuki_count(g: Grid<Color>, team: Color, n: nat) -> nat
    decreases n,
{
    if n == 0 {
        0
    } else {
        ponnuki_count(g, team, (n - 1) as nat) + if ponnuki(g, team, g.point(n - 1)) {
            1nat
        } else {
            0nat
        }
    }
}

/// The score `score` after `bonus` was added `n` times, each addition wrapping around.
pub open spec fn add_times(score: i32, bonus: i32, n: nat) -> i32
    decreases n,
{
    if n == 0 {
        score
    } else {
        add_times(score, bonus, (n - 1) as nat).wrapping_add(bonus)
    }
}

/// The filter that keeps the points outside `s`.
pub open spec fn outside(s: Set<Point>) -> spec_fn(Point) -> bool {
    |p: Point| !s.contains(p)
}

/// What the capture pass leaves.
pub struct Captured {
    pub board: Grid<Color>,
    pub visibility: Option<Grid<u16>>,
    pub points: Seq<i32>,
    /// The points played that are still on the board.
    pub played: Seq<Point>,
    /// The number of stones of other teams taken off the board.
    pub captures: nat,
    /// Whether a hidden cell was made visible.
    pub revealed: bool,
}

/// The capture pass after `team` has played the points `played` on `board`.
///
/// Every group of another team without a liberty leaves the board. Then, on the board so
/// cleared, every point played that belongs to a group of `team` without a liberty leaves
/// the board and the list of points played. The cells of all those groups and their
/// neighbours become visible to all. With a bonus set, the team scores it once for each
/// stone captured that stood alone with stones of `team` on every side.
pub open spec fn capture_outcome(
    board: Grid<Color>,
    visibility: Option<Grid<u16>>,
    points: Seq<i32>,
    bonus: Option<i32>,
    team: Color,
    played: Seq<Point>,
) -> Captured {
    let fallen = dead_opponents(board, team);
    let cleared = board.blank(fallen, Color(0));
    let own = dead_own(cleared, team);
    let undone = own.intersect(played.to_set());
    let area = touched(board, fallen).union(touched(board, own));
    Captured {
        board: cleared.blank(undone, Color(0)),
        visibility: match visibility {
            Some(v) => Some(wiped(v, area)),
            None => None,
        },
        points: match bonus {
            Some(k) => points.update(
                team.0 - 1,
                add_times(points[team.0 - 1], k, ponnuki_count(board, team, board.cells.len())),
            ),
            None => points,
        },
        played: played.filter(outside(own)),
        captures: (stones(board) - stones(cleared)) as nat,
        revealed: match visibility {
            Some(v) => hides_any(v, area),
            None => false,
        },
    }
}

/// What placing stones leaves, before any capture.
pub struct Placed {
    /// The points played, or why nothing was played.
    pub result: Result<Seq<Point>, MakeActionError>,
    pub board: Grid<Color>,
    pub visibility: Option<Grid<u16>>,
    pub last_stone: Option<Seq<Point>>,
}

/// Whether the overlay, if there is one, hides the stone at `p`.
pub open spec fn hidden_at(visibility: Option<Grid<u16>>, p: Point) -> bool {
    visibility matches Some(v) && v.at(p) != 0
}

/// The overlay, if there is one, with the cells of `s` made visible to all.
pub open spec fn uncovered(visibility: Option<Grid<u16>>, s: Set<Point>) -> Option<Grid<u16>> {
    match visibility {
        Some(v) => Some(wiped(v, s)),
        None => None,
    }
}

/// Placing one stone of `team` at `p`.
///
/// Off the board nothing happens. On a stone that was hidden, the stone is revealed and
/// nothing is played; on any other stone the placement is refused. On an empty cell the
/// stone is placed, and the cell becomes visible to all. A mask that lay on an empty cell
/// hid no stone: clearing it is no revelation.
pub open spec fn place_single(
    board: Grid<Color>,
    visibility: Option<Grid<u16>>,
    last_stone: Option<Seq<Point>>,
    team: Color,
    p: Point,
) -> Placed {
    if !board.contains(p) {
        Placed { result: Err(MakeActionError::OutOfBounds), board, visibility, last_stone }
    } else if board.at(p) != Color(0) {
        if hidden_at(visibility, p) {
            Placed {
                result: Ok(Seq::empty()),
                board,
                visibility: uncovered(visibility, set![p]),
                last_stone: Some(seq![p]),
            }
        } else {
            Placed { result: Err(MakeActionError::PointOccupied), board, visibility, last_stone }
        }
    } else {
        Placed {
            result: Ok(seq![p]),
            board: board.with(p, team),
            visibility: uncovered(visibility, set![p]),
            last_stone,
        }
    }
}

/// The cells on the board of the block of two by two that the coordinates `(x, y)`, counted
/// from one, address: `(x - 1, y - 1)`, `(x, y - 1)`, `(x - 1, y)`, `(x, y)`, in this order.
pub open spec fn pixel_cells(g: Grid<Color>, x: u32, y: u32) -> Seq<Point> {
    let a = if x >= 1 && y >= 1 {
        seq![((x - 1) as u32, (y - 1) as u32)]
    } else {
        seq![]
    };
    let b = if x < g.width && y >= 1 {
        seq![(x, (y - 1) as u32)]
    } else {
        seq![]
    };
    let c = if x >= 1 && y < g.height {
        seq![((x - 1) as u32, y)]
    } else {
        seq![]
    };
    let d = if x < g.width && y < g.height {
        seq![(x, y)]
    } else {
        seq![]
    };
    a + b + c + d
}

/// The points that a block placement records: each cell of the block, in order, once if its
/// stone was hidden and once more if it was empty.
pub open spec fn pixel_played(
    board: Grid<Color>,
    visibility: Option<Grid<u16>>,
    cells: Seq<Point>,
) -> Seq<Point>
    decreases cells.len(),
{
    if cells.len() == 0 {
        Seq::empty()
    } else {
        let c = cells.last();
        pixel_played(board, visibility, cells.drop_last()) + (if hidden_at(visibility, c) {
            seq![c]
        } else {
            seq![]
        }) + (if board.at(c) == Color(0) {
            seq![c]
        } else {
            seq![]
        })
    }
}

/// The content of each cell after the empty cells of `s` got a stone of `team`.
pub open spec fn paint(board: Grid<Color>, team: Color, s: Set<Point>) -> spec_fn(Point) -> Color {
    |q: Point|
        if s.contains(q) && board.at(q) == Color(0) {
            team
        } else {
            board.at(q)
        }
}

/// The board with a stone of `team` on every empty cell of `s`.
pub open spec fn painted(board: Grid<Color>, team: Color, s: Set<Point>) -> Grid<Color> {
    Grid::tabulate(board.width, board.height, paint(board, team, s))
}

/// Placing a block of stones of `team` with the coordinates `(x, y)`, counted from one.
///
/// Beyond the board nothing happens. Otherwise every cell of the block becomes visible to
/// all and every empty cell of it gets a stone. Where no cell was empty, the placement is a
/// revelation if a stone of the block was hidden, and is refused if none was.
pub open spec fn place_pixel(
    board: Grid<Color>,
    visibility: Option<Grid<u16>>,
    last_stone: Option<Seq<Point>>,
    team: Color,
    x: u32,
    y: u32,
) -> Placed {
    let cells = pixel_cells(board, x, y);
    let played = pixel_played(board, visibility, cells);
    let any_placed = exists|i: int|
        0 <= i < cells.len() && board.at(#[trigger] cells[i]) == Color(0);
    let any_revealed = exists|i: int|
        0 <= i < cells.len() && hidden_at(visibility, #[trigger] cells[i]);
    if x > board.width || y > board.height {
        Placed { result: Err(MakeActionError::OutOfBounds), board, visibility, last_stone }
    } else if any_placed {
        Placed {
            result: Ok(played),
            board: painted(board, team, cells.to_set()),
            visibility: uncovered(visibility, cells.to_set()),
            last_stone,
        }
    } else if any_revealed {
        Placed {
            result: Ok(Seq::empty()),
            board,
            visibility: uncovered(visibility, cells.to_set()),
            last_stone: Some(played),
        }
    } else {
        Placed { result: Err(MakeActionError::PointOccupied), board, visibility, last_stone }
    }
}

/// Placing for the team to move, by the rule of the game.
pub open spec fn placement(s: SharedView, st: PlayView, p: Point) -> Placed {
    if s.mods.pixel {
        place_pixel(s.board, s.board_visibility, st.last_stone, s.team(), p.0, p.1)
    } else {
        place_single(s.board, s.board_visibility, st.last_stone, s.team(), p)
    }
}

/// A game and its play state after an action, with what the action returned.
pub struct Outcome {
    pub result: Result<ChangeView, MakeActionError>,
    pub shared: SharedView,
    pub state: PlayView,
}

/// The number of history entries that are searched for a repeated position: as many as
/// stones were captured in the game, this move included, and at least one.
pub open spec fn ko_window(capture_count: usize, captures: nat) -> nat {
    if capture_count + captures == 0 {
        1
    } else {
        capture_count as nat + captures
    }
}

/// Whether one of the last `window` entries of the history holds `board`.
pub open spec fn repeats(history: Seq<HistoryView>, window: nat, board: Grid<Color>) -> bool {
    exists|k: int|
        0 <= k < history.len() && history.len() - window <= k && (#[trigger] history[k]).board
            == board
}

/// The seat after `turn`, the first seat following the last.
pub open spec fn next_turn(turn: usize, seat_count: nat) -> usize {
    if turn + 1 >= seat_count {
        0
    } else {
        (turn + 1) as usize
    }
}

/// Nobody has passed.
pub open spec fn nobody_passed(n: nat) -> Seq<bool> {
    Seq::new(n, |i: int| false)
}

/// The game with its board and points as in the last entry of its history.
pub open spec fn restored(s: SharedView) -> SharedView {
    SharedView { board: s.board_history.last().board, points: s.board_history.last().points, ..s }
}

/// The overlay after the rule of the extra turn showed its matching lines, if the rule is set.
pub open spec fn after_lines(
    mods: GameModifier,
    board: Grid<Color>,
    visibility: Option<Grid<u16>>,
    played: Seq<Point>,
) -> Option<Grid<u16>> {
    match mods.n_plus_one {
        Some(rule) => uncovered(visibility, shown(board, played, rule.length)),
        None => visibility,
    }
}

/// Whether the rule of the extra turn is set and grants one.
pub open spec fn plays_again(mods: GameModifier, board: Grid<Color>, played: Seq<Point>) -> bool {
    mods.n_plus_one matches Some(rule) && extra_turn(board, played, rule.length)
}

/// The game after a placement was let stand: the overlay after the rule of the extra turn,
/// the turn passed on unless the move earned another, an entry added to the history and
/// the captures counted.
pub open spec fn settled(
    s: SharedView,
    st: PlayView,
    played: Seq<Point>,
    captures: nat,
    hash: u64,
) -> SharedView {
    let visibility = after_lines(s.mods, s.board, s.board_visibility, played);
    let turn = if plays_again(s.mods, s.board, played) {
        s.turn
    } else {
        next_turn(s.turn, s.seats.len())
    };
    let entry = HistoryView {
        hash,
        board: s.board,
        board_visibility: visibility,
        state: GameStateView::Play(
            PlayView {
                players_passed: nobody_passed(st.players_passed.len()),
                last_stone: Some(played),
            },
        ),
        points: s.points,
        turn,
    };
    SharedView {
        board_visibility: visibility,
        turn,
        board_history: s.board_history.push(entry),
        capture_count: (s.capture_count + captures) as usize,
        ..s
    }
}

/// What placing at `p` does.
///
/// A placement that is refused changes nothing: the game and the play state are as they
/// were, and what the attempt had uncovered is covered again. One that only reveals hidden
/// stones changes the overlay and the last stone. Otherwise the capture pass runs. If it
/// leaves none of the points played, the move was a revelation if the capture pass revealed
/// a cell: board and points are restored from the history and the overlay stays uncovered.
/// If the pass revealed none, the move is refused as a suicide. If the position repeats one
/// of the window, the move is refused as a ko. Otherwise the move stands: the turn passes on
/// unless the move earns another, nobody has passed, and an entry is added to the history.
pub open spec fn place_outcome(s: SharedView, st: PlayView, p: Point) -> Outcome {
    let pl = placement(s, st, p);
    match pl.result {
        Err(e) => Outcome { result: Err(e), shared: s, state: st },
        Ok(played) => if played.len() == 0 {
            Outcome {
                result: Ok(ChangeView::NoChange),
                shared: SharedView { board_visibility: pl.visibility, ..s },
                state: PlayView { last_stone: pl.last_stone, ..st },
            }
        } else {
            let cap = capture_outcome(
                pl.board,
                pl.visibility,
                s.points,
                s.mods.ponnuki_is_points,
                s.team(),
                played,
            );
            if cap.played.len() == 0 {
                if cap.revealed {
                    Outcome {
                        result: Ok(ChangeView::NoChange),
                        shared: restored(SharedView { board_visibility: cap.visibility, ..s }),
                        state: st,
                    }
                } else {
                    Outcome { result: Err(MakeActionError::Suicide), shared: s, state: st }
                }
            } else if repeats(
                s.board_history,
                ko_window(s.capture_count, cap.captures),
                cap.board,
            ) {
                Outcome { result: Err(MakeActionError::Ko), shared: s, state: st }
            } else {
                let after = SharedView {
                    board: cap.board,
                    board_visibility: cap.visibility,
                    points: cap.points,
                    ..s
                };
                Outcome {
                    result: Ok(ChangeView::NoChange),
                    shared: settled(after, st, cap.played, cap.captures, board_hash(cap.board)),
                    state: PlayView {
                        players_passed: nobody_passed(st.players_passed.len()),
                        last_stone: Some(cap.played),
                    },
                }
            }
        },
    }
}

/// Who has passed after the team `team` passes: its seats, and those that had passed.
pub open spec fn passed_after(passed: Seq<bool>, seats: Seq<Seat>, team: Color) -> Seq<bool> {
    Seq::new(passed.len(), |i: int| passed[i] || seats[i].team == team)
}

/// Whether every seat has passed.
pub open spec fn all_passed(passed: Seq<bool>) -> bool {
    forall|i: int| 0 <= i < passed.len() ==> passed[i]
}

/// What passing does.
///
/// The seats of the team to move have passed, the turn passes on, and an entry is added to
/// the history. Once every seat has passed, the passes are forgotten and scoring is asked
/// for.
pub open spec fn pass_outcome(s: SharedView, st: PlayView) -> Outcome {
    let passed = passed_after(st.players_passed, s.seats, s.team());
    let turn = next_turn(s.turn, s.seats.len());
    let entry = HistoryView {
        hash: board_hash(s.board),
        board: s.board,
        board_visibility: s.board_visibility,
        state: GameStateView::Play(PlayView { players_passed: passed, ..st }),
        points: s.points,
        turn,
    };
    let shared = SharedView { turn, board_history: s.board_history.push(entry), ..s };
    if all_passed(passed) {
        Outcome {
            result: Ok(
                ChangeView::PushState(
                    GameStateView::Scoring(
                        ScoringView { board: s.board, seat_count: s.seats.len() as usize, points: s.points },
                    ),
                ),
            ),
            shared,
            state: PlayView { players_passed: nobody_passed(passed.len()), ..st },
        }
    } else {
        Outcome {
            result: Ok(ChangeView::NoChange),
            shared,
            state: PlayView { players_passed: passed, ..st },
        }
    }
}

/// The play state that a history entry recorded.
pub open spec fn recorded_state(e: HistoryView) -> PlayView {
    match e.state {
        GameStateView::Play(p) => p,
        GameStateView::Scoring(_) => PlayView { players_passed: Seq::empty(), last_stone: None },
    }
}

/// What undoing does.
///
/// With fewer than two entries in the history there is nothing to undo. Otherwise the last
/// entry leaves, and board, overlay, points, turn and play state are those of the entry
/// before it. The count of captures stays.
pub open spec fn cancel_outcome(s: SharedView, st: PlayView) -> Outcome {
    if s.board_history.len() < 2 {
        Outcome { result: Err(MakeActionError::OutOfBounds), shared: s, state: st }
    } else {
        let history = s.board_history.drop_last();
        let e = history.last();
        Outcome {
            result: Ok(ChangeView::NoChange),
            shared: SharedView {
                board: e.board,
                board_visibility: e.board_visibility,
                points: e.points,
                turn: e.turn,
                board_history: history,
                ..s
            },
            state: recorded_state(e),
        }
    }
}

/// The colour that every seat plays after `moves` moves, with `color_count` colours.
pub open spec fn zen_team(moves: int, color_count: u8) -> Color {
    Color(((moves % (color_count as int)) + 1) as u8)
}

/// The seats with their teams set by the number of moves made, where the game rotates
/// colours; the seats as they are, where it does not.
pub open spec fn zen_seats(s: SharedView) -> Seq<Seat> {
    match s.mods.zen_go {
        Some(z) => Seq::new(
            s.seats.len(),
            |i: int|
                Seat { team: zen_team(s.board_history.len() - 1, z.color_count), ..s.seats[i] },
        ),
        None => s.seats,
    }
}

/// What the player's action does by itself, whoever's turn it is.
pub open spec fn dispatch(s: SharedView, st: PlayView, action: crate::game::ActionKind) -> Outcome {
    match action {
        crate::game::ActionKind::Place(x, y) => place_outcome(s, st, (x, y)),
        crate::game::ActionKind::Pass => pass_outcome(s, st),
        crate::game::ActionKind::Cancel => cancel_outcome(s, st),
    }
}

/// What an action of the player `player_id` does.
///
/// It is refused unless that player sits at the seat to move. An action that succeeds is
/// followed by the rotation of colours, where the game has it.
pub open spec fn action_outcome(
    s: SharedView,
    st: PlayView,
    player_id: u64,
    action: crate::game::ActionKind,
) -> Outcome {
    if s.active_seat().player != Some(player_id) {
        Outcome { result: Err(MakeActionError::NotTurn), shared: s, state: st }
    } else {
        let o = dispatch(s, st, action);
        match o.result {
            Err(_) => o,
            Ok(_) => Outcome { shared: SharedView { seats: zen_seats(o.shared), ..o.shared }, ..o },
        }
    }
}

} // verus!
