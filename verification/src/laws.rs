//! Laws of the play phase, each proved from the rules.

use vstd::prelude::*;
use crate::board::board_hash;
use crate::game::{
    ActionKind, ChangeView, GameStateView, HistoryView, MakeActionError, SharedView,
};
use crate::play::{ready, PlayView};
use crate::rules::{action_outcome, dispatch, pass_outcome, passed_after, zen_team};

verus! {

/// A refused action leaves the game and the play state as they were.
pub proof fn law_refused_changes_nothing(
    s: SharedView,
    st: PlayView,
    player_id: u64,
    action: ActionKind,
)
    requires
        ready(s, st),
        action_outcome(s, st, player_id, action).result is Err,
    ensures
        action_outcome(s, st, player_id, action).shared == s,
        action_outcome(s, st, player_id, action).state == st,
{
}

/// After an action that succeeds and adds an entry to the history or takes one from it,
/// and that does not ask for scoring, the last entry of the history holds the game as it
/// is: board, overlay, play state, points, turn, and the hash of the board.
pub proof fn law_history_holds_the_game(
    s: SharedView,
    st: PlayView,
    player_id: u64,
    action: ActionKind,
)
    requires
        ready(s, st),
        action_outcome(s, st, player_id, action).result == Ok::<ChangeView, MakeActionError>(
            ChangeView::NoChange,
        ),
        action_outcome(s, st, player_id, action).shared.board_history.len()
            != s.board_history.len(),
    ensures
        ({
            let o = action_outcome(s, st, player_id, action);
            o.shared.board_history.last() == (HistoryView {
                hash: board_hash(o.shared.board),
                board: o.shared.board,
                board_visibility: o.shared.board_visibility,
                state: GameStateView::Play(o.state),
                points: o.shared.points,
                turn: o.shared.turn,
            })
        }),
{
    let o = action_outcome(s, st, player_id, action);
    match action {
        ActionKind::Place(x, y) => {},
        ActionKind::Pass => {},
        ActionKind::Cancel => {
            let h = s.board_history.drop_last();
            assert(h.last() == s.board_history[s.board_history.len() - 2]);
            assert(s.board_history[s.board_history.len() - 2].fits(s));
        },
    }
}

/// When a seat passes and the next seat to move plays for the same team, that seat's pass
/// marks no seat that the first pass had not marked: a team's seats are marked once.
pub proof fn law_pass_marks_a_team_once(s: SharedView, st: PlayView)
    requires
        ready(s, st),
        pass_outcome(s, st).result == Ok::<ChangeView, MakeActionError>(ChangeView::NoChange),
        pass_outcome(s, st).shared.team() == s.team(),
    ensures
        ({
            let first = pass_outcome(s, st);
            &&& forall|i: int|
                0 <= i < s.seats.len() ==> first.state.players_passed[i] == (st.players_passed[i]
                    || s.seats[i].team == s.team())
            &&& passed_after(first.state.players_passed, first.shared.seats, first.shared.team())
                == first.state.players_passed
        }),
{
    let first = pass_outcome(s, st);
    assert(passed_after(first.state.players_passed, first.shared.seats, first.shared.team())
        =~= first.state.players_passed);
}

/// Whether the last entry of the history holds the game and the play state as they are.
pub open spec fn recorded(s: SharedView, st: PlayView) -> bool {
    let e = s.board_history.last();
    &&& e.board == s.board
    &&& e.board_visibility == s.board_visibility
    &&& e.points == s.points
    &&& e.turn == s.turn
    &&& e.state == GameStateView::Play(st)
}

/// Undoing a placement or a pass that added an entry to the history brings back board,
/// overlay, points, turn, play state and history as they were before it, where the
/// history held them.
pub proof fn law_undo_round_trip(
    s: SharedView,
    st: PlayView,
    mover: u64,
    action: ActionKind,
    undoer: u64,
)
    requires
        ready(s, st),
        recorded(s, st),
        action != ActionKind::Cancel,
        action_outcome(s, st, mover, action).result is Ok,
        action_outcome(s, st, mover, action).shared.board_history.len() == s.board_history.len()
            + 1,
        ({
            let o = action_outcome(s, st, mover, action);
            action_outcome(o.shared, o.state, undoer, ActionKind::Cancel).result is Ok
        }),
    ensures
        ({
            let o = action_outcome(s, st, mover, action);
            let u = action_outcome(o.shared, o.state, undoer, ActionKind::Cancel);
            &&& u.shared.board == s.board
            &&& u.shared.board_visibility == s.board_visibility
            &&& u.shared.points == s.points
            &&& u.shared.turn == s.turn
            &&& u.state == st
            &&& u.shared.board_history == s.board_history
            &&& u.shared.capture_count == o.shared.capture_count
        }),
{
    let o = action_outcome(s, st, mover, action);
    let d = dispatch(s, st, action);
    assert(o.shared.board_history == d.shared.board_history);
    assert(d.shared.board_history.drop_last() =~= s.board_history);
}

/// Whether every seat plays the colour that the number of moves made gives it, where the
/// game rotates colours.
pub open spec fn zen_aligned(s: SharedView) -> bool {
    s.mods.zen_go matches Some(z) ==> forall|i: int|
        0 <= i < s.seats.len() ==> (#[trigger] s.seats[i]).team.0 == ((s.board_history.len() - 1)
            % (z.color_count as int)) + 1
}

/// After an action that succeeds every seat plays the colour that the number of moves made
/// gives it, and an action that is refused leaves this as it was.
pub proof fn law_zen_rotation(s: SharedView, st: PlayView, player_id: u64, action: ActionKind)
    requires
        ready(s, st),
        zen_aligned(s) || action_outcome(s, st, player_id, action).result is Ok,
    ensures
        zen_aligned(action_outcome(s, st, player_id, action).shared),
{
    let o = action_outcome(s, st, player_id, action);
    if let Some(z) = s.mods.zen_go {
        if o.result is Ok {
            let d = dispatch(s, st, action);
            let m = d.shared.board_history.len() - 1;
            assert(d.shared.mods == s.mods);
            assert(0 <= m % (z.color_count as int) < z.color_count) by (nonlinear_arith)
                requires
                    0 <= m,
                    z.color_count >= 1,
            ;
            assert(zen_team(m, z.color_count).0 == (m % (z.color_count as int)) + 1);
        } else {
            assert(o.shared.seats == s.seats);
            assert(o.shared.board_history == s.board_history);
        }
    }
}

} // verus!
