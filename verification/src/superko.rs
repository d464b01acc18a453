//! Why the ko rule may stop at a window of the history.
//!
//! A stone is placed with every entry that a placement adds, and stones leave the board
//! only when they are captured. So between two entries that hold the same board, as many
//! stones were captured as entries were added, and a repeated position lies no further
//! back than stones were captured in the game.

use vstd::prelude::*;
use crate::board::{Color, Grid};
use crate::capture::{lemma_count_bound, lemma_count_update, lemma_stone_added};
use crate::placement::{lemma_painted_nothing, lemma_painted_with, lemma_pixel_cells};
use crate::game::{ActionKind, SharedView};
use crate::play::{capture_of, ready, PlayView};
use crate::point_list::{lemma_filter_push, Point};
use crate::rules::{
    action_outcome, capture_outcome, count_stones, dead_opponents, dead_own, dispatch, hidden_at,
    ko_window, outside, painted, pixel_cells, pixel_played, placement, repeats, stones,
};

verus! {

/// Whether the history has gained no entry without a stone: from any entry to a later one,
/// the steps made are at most the stones gained and the stones captured in the game.
pub open spec fn within_budget(s: SharedView) -> bool {
    forall|j: int, k: int|
        0 <= j <= k < s.board_history.len() ==> k - j + stones(
            (#[trigger] s.board_history[j]).board,
        ) <= s.capture_count + stones((#[trigger] s.board_history[k]).board)
}

/// Taking stones off leaves no more stones than there were.
pub proof fn lemma_count_fewer(a: Seq<Color>, b: Seq<Color>)
    requires
        a.len() == b.len(),
        forall|i: int| 0 <= i < a.len() && #[trigger] b[i] != Color(0) ==> a[i] != Color(0),
    ensures
        count_stones(b) <= count_stones(a),
    decreases a.len(),
{
    if a.len() > 0 {
        assert forall|i: int|
            0 <= i < a.drop_last().len() && #[trigger] b.drop_last()[i] != Color(
                0,
            ) implies a.drop_last()[i] != Color(0) by {
            assert(b.drop_last()[i] == b[i]);
        }
        lemma_count_fewer(a.drop_last(), b.drop_last());
        if b[b.len() - 1] != Color(0) {
            assert(a[a.len() - 1] != Color(0));
        }
    }
}

/// A board with some cells emptied holds no more stones than before.
pub proof fn lemma_blank_fewer(g: Grid<Color>, s: Set<Point>)
    requires
        g.wf(),
    ensures
        stones(g.blank(s, Color(0))) <= stones(g),
{
    g.lemma_blank(s, Color(0));
    let b = g.blank(s, Color(0));
    assert forall|i: int| 0 <= i < g.cells.len() && #[trigger] b.cells[i] != Color(
        0,
    ) implies g.cells[i] != Color(0) by {
        g.lemma_point(i);
        b.lemma_point(i);
        let p = g.point(i);
        assert(b.at(p) == b.cells[i]);
        assert(g.at(p) == g.cells[i]);
    }
    lemma_count_fewer(g.cells, b.cells);
}

/// Whether the placement at `p` meets no hidden stone: in a game of blocks, no cell of the
/// block holds a stone that the overlay hides.
pub open spec fn meets_no_hidden(s: SharedView, p: Point) -> bool {
    s.mods.pixel ==> forall|i: int|
        0 <= i < pixel_cells(s.board, p.0, p.1).len() ==> !hidden_at(
            s.board_visibility,
            #[trigger] pixel_cells(s.board, p.0, p.1)[i],
        )
}

/// A block with no hidden stone gains as many stones as points are recorded, and every
/// point recorded is a cell of the block.
pub proof fn lemma_painted_count(
    g: Grid<Color>,
    visibility: Option<Grid<u16>>,
    t: Color,
    cells: Seq<Point>,
)
    requires
        g.wf(),
        t != Color(0),
        cells.no_duplicates(),
        forall|i: int| 0 <= i < cells.len() ==> g.contains(#[trigger] cells[i]),
        forall|i: int| 0 <= i < cells.len() ==> !hidden_at(visibility, #[trigger] cells[i]),
    ensures
        stones(painted(g, t, cells.to_set())) == stones(g) + pixel_played(g, visibility, cells).len(),
        forall|i: int|
            0 <= i < pixel_played(g, visibility, cells).len() ==> g.contains(
                #[trigger] pixel_played(g, visibility, cells)[i],
            ),
    decreases cells.len(),
{
    if cells.len() == 0 {
        assert(cells.to_set() =~= Set::empty());
        lemma_painted_nothing(g, t, Set::empty());
    } else {
        let rest = cells.drop_last();
        let c = cells.last();
        assert forall|i: int| 0 <= i < rest.len() implies g.contains(#[trigger] rest[i])
            && !hidden_at(visibility, rest[i]) by {
            assert(rest[i] == cells[i]);
        }
        lemma_painted_count(g, visibility, t, rest);
        assert(cells =~= rest.push(c));
        rest.lemma_push_to_set_commute(c);
        assert(!rest.to_set().contains(c)) by {
            if rest.contains(c) {
                let i = choose|i: int| 0 <= i < rest.len() && rest[i] == c;
                assert(cells[i] == cells[cells.len() - 1]);
            }
        }
        assert(g.contains(cells[cells.len() - 1]));
        lemma_painted_with(g, t, rest.to_set(), c);
        if g.at(c) == Color(0) {
            lemma_stone_added(painted(g, t, rest.to_set()), c, t);
        }
        let played = pixel_played(g, visibility, cells);
        let before = pixel_played(g, visibility, rest);
        assert forall|i: int| 0 <= i < played.len() implies g.contains(#[trigger] played[i]) by {
            if i < before.len() {
                assert(played[i] == before[i]);
            }
        }
    }
}

/// Taking the points of a list that lie in `own` off the board takes no more stones than
/// points leave the list.
pub proof fn lemma_undone_count(g: Grid<Color>, own: Set<Point>, l: Seq<Point>)
    requires
        g.wf(),
        forall|i: int| 0 <= i < l.len() ==> g.contains(#[trigger] l[i]),
    ensures
        stones(g.blank(own.intersect(l.to_set()), Color(0))) + l.len() >= stones(g) + l.filter(
            outside(own),
        ).len(),
    decreases l.len(),
{
    if l.len() == 0 {
        assert(own.intersect(l.to_set()) =~= Set::empty());
        g.lemma_blank_nothing(Color(0));
        l.lemma_filter_len(outside(own));
    } else {
        let rest = l.drop_last();
        let x = l.last();
        assert forall|i: int| 0 <= i < rest.len() implies g.contains(#[trigger] rest[i]) by {
            assert(rest[i] == l[i]);
        }
        lemma_undone_count(g, own, rest);
        assert(l =~= rest.push(x));
        rest.lemma_push_to_set_commute(x);
        lemma_filter_push(rest, x, outside(own));
        let s0 = own.intersect(rest.to_set());
        let s1 = own.intersect(l.to_set());
        assert(g.contains(l[l.len() - 1]));
        if own.contains(x) {
            assert(s1 =~= s0.insert(x));
            g.lemma_blank_with(s0, Color(0), x);
            g.lemma_blank(s0, Color(0));
            let b = g.blank(s0, Color(0));
            b.lemma_index(x);
            lemma_count_update(b.cells, b.index(x), Color(0));
        } else {
            assert(s1 =~= s0);
        }
    }
}

/// The points that a placement plays lie on the board, and where it meets no hidden stone
/// the board gains as many stones as points are played.
pub proof fn lemma_placement_count(s: SharedView, st: PlayView, p: Point)
    requires
        ready(s, st),
        meets_no_hidden(s, p),
        placement(s, st, p).result matches Ok(played) && played.len() > 0,
    ensures
        ({
            let pl = placement(s, st, p);
            let played = pl.result->Ok_0;
            &&& stones(pl.board) == stones(s.board) + played.len()
            &&& forall|i: int| 0 <= i < played.len() ==> s.board.contains(#[trigger] played[i])
        }),
{
    let t = s.team();
    assert(s.seats[s.turn as int].team.0 >= 1);
    if s.mods.pixel {
        let cells = pixel_cells(s.board, p.0, p.1);
        lemma_pixel_cells(s.board, p.0, p.1);
        lemma_painted_count(s.board, s.board_visibility, t, cells);
        let any_placed = exists|i: int|
            0 <= i < cells.len() && s.board.at(#[trigger] cells[i]) == Color(0);
        assert(any_placed);
    } else {
        lemma_stone_added(s.board, p, t);
        assert(placement(s, st, p).result->Ok_0 =~= seq![p]);
    }
}

/// Where a placement that meets no hidden stone stands, the board has gained a stone at
/// least, but for the stones captured.
pub proof fn lemma_stones_after_placement(s: SharedView, st: PlayView, p: Point)
    requires
        ready(s, st),
        meets_no_hidden(s, p),
        placement(s, st, p).result matches Ok(played) && played.len() > 0 && capture_of(
            (SharedView {
                board: placement(s, st, p).board,
                board_visibility: placement(s, st, p).visibility,
                ..s
            }),
            played,
        ).played.len() > 0,
    ensures
        ({
            let pl = placement(s, st, p);
            let cap = capture_outcome(
                pl.board,
                pl.visibility,
                s.points,
                s.mods.ponnuki_is_points,
                s.team(),
                pl.result->Ok_0,
            );
            &&& stones(cap.board) + cap.captures >= stones(s.board) + 1
            &&& cap.captures <= s.board.cells.len()
        }),
{
    let pl = placement(s, st, p);
    let played = pl.result->Ok_0;
    let t = s.team();
    let fallen = dead_opponents(pl.board, t);
    let cleared = pl.board.blank(fallen, Color(0));
    let own = dead_own(cleared, t);
    lemma_placement_count(s, st, p);
    crate::placement::lemma_placement_shape(s, st, p);
    lemma_blank_fewer(pl.board, fallen);
    pl.board.lemma_blank(fallen, Color(0));
    lemma_count_bound(pl.board.cells);
    assert forall|i: int| 0 <= i < played.len() implies cleared.contains(#[trigger] played[i]) by {
        assert(s.board.contains(played[i]));
    }
    lemma_undone_count(cleared, own, played);
}

/// The window of the ko rule is wide enough: where the history is within its budget and the
/// placement meets no hidden stone, every entry of the history that holds the board after
/// the move lies among the entries that the rule compares.
pub proof fn law_window_suffices(s: SharedView, st: PlayView, p: Point)
    requires
        ready(s, st),
        within_budget(s),
        meets_no_hidden(s, p),
        placement(s, st, p).result matches Ok(played) && played.len() > 0 && capture_of(
            (SharedView {
                board: placement(s, st, p).board,
                board_visibility: placement(s, st, p).visibility,
                ..s
            }),
            played,
        ).played.len() > 0,
    ensures
        ({
            let pl = placement(s, st, p);
            let cap = capture_outcome(
                pl.board,
                pl.visibility,
                s.points,
                s.mods.ponnuki_is_points,
                s.team(),
                pl.result->Ok_0,
            );
            &&& forall|j: int|
                0 <= j < s.board_history.len() && (#[trigger] s.board_history[j]).board
                    == cap.board ==> s.board_history.len() - ko_window(
                    s.capture_count,
                    cap.captures,
                ) <= j
            &&& repeats(s.board_history, ko_window(s.capture_count, cap.captures), cap.board)
                == exists|j: int|
                0 <= j < s.board_history.len() && (#[trigger] s.board_history[j]).board
                    == cap.board
        }),
{
    let pl = placement(s, st, p);
    let cap = capture_outcome(
        pl.board,
        pl.visibility,
        s.points,
        s.mods.ponnuki_is_points,
        s.team(),
        pl.result->Ok_0,
    );
    lemma_stones_after_placement(s, st, p);
    let n = s.board_history.len() as int;
    let h = s.board_history;
    assert forall|j: int| 0 <= j < n && (#[trigger] h[j]).board == cap.board implies n - ko_window(
        s.capture_count,
        cap.captures,
    ) <= j by {
        assert(h[n - 1].board == s.board);
        assert(n - 1 - j + stones(h[j].board) <= s.capture_count + stones(h[n - 1].board));
    }
    if exists|j: int| 0 <= j < n && (#[trigger] h[j]).board == cap.board {
        let j = choose|j: int| 0 <= j < n && (#[trigger] h[j]).board == cap.board;
        assert(repeats(h, ko_window(s.capture_count, cap.captures), cap.board));
    }
}

/// The history stays within its budget under every action but a pass and a placement that
/// meets a hidden stone.
pub proof fn law_budget_kept(s: SharedView, st: PlayView, player_id: u64, action: ActionKind)
    requires
        ready(s, st),
        within_budget(s),
        action matches ActionKind::Place(x, y) ==> meets_no_hidden(s, (x, y)),
        action != ActionKind::Pass,
        s.capture_count + s.board.cells.len() <= usize::MAX,
    ensures
        within_budget(action_outcome(s, st, player_id, action).shared),
{
    let o = action_outcome(s, st, player_id, action);
    let d = dispatch(s, st, action);
    let h = s.board_history;
    let n = h.len() as int;
    if s.active_seat().player == Some(player_id) {
        assert(o.shared.board_history == d.shared.board_history);
        assert(o.shared.capture_count == d.shared.capture_count);
        match action {
            ActionKind::Place(x, y) => {
                let p = (x, y);
                let pl = placement(s, st, p);
                if let Ok(played) = pl.result {
                    if played.len() > 0 {
                        let cap = capture_outcome(
                            pl.board,
                            pl.visibility,
                            s.points,
                            s.mods.ponnuki_is_points,
                            s.team(),
                            played,
                        );
                        if cap.played.len() > 0 && !repeats(
                            h,
                            ko_window(s.capture_count, cap.captures),
                            cap.board,
                        ) {
                            lemma_stones_after_placement(s, st, p);
                            let g = d.shared.board_history;
                            assert(g.len() == n + 1);
                            assert(g[n].board == cap.board);
                            assert(d.shared.capture_count == s.capture_count + cap.captures);
                            assert forall|j: int, k: int| 0 <= j <= k < g.len() implies k - j
                                + stones((#[trigger] g[j]).board) <= d.shared.capture_count
                                + stones((#[trigger] g[k]).board) by {
                                if k < n {
                                    assert(g[j] == h[j] && g[k] == h[k]);
                                } else if j < n {
                                    assert(g[j] == h[j]);
                                    assert(h[n - 1].board == s.board);
                                    assert(n - 1 - j + stones(h[j].board) <= s.capture_count
                                        + stones(h[n - 1].board));
                                }
                            }
                        }
                    }
                }
            },
            ActionKind::Pass => {},
            ActionKind::Cancel => {
                if n >= 2 {
                    let g = d.shared.board_history;
                    assert forall|j: int, k: int| 0 <= j <= k < g.len() implies k - j + stones(
                        (#[trigger] g[j]).board,
                    ) <= d.shared.capture_count + stones((#[trigger] g[k]).board) by {
                        assert(g[j] == h[j] && g[k] == h[k]);
                    }
                }
            },
        }
    }
}

/// A history of one entry is within its budget.
pub proof fn law_budget_at_start(s: SharedView)
    requires
        s.board_history.len() == 1,
    ensures
        within_budget(s),
{
}

/// A pass may take the history out of its budget: it adds an entry and no stone.
pub proof fn law_pass_breaks_budget(s: SharedView, st: PlayView)
    requires
        ready(s, st),
        s.capture_count == 0,
    ensures
        !within_budget(crate::rules::pass_outcome(s, st).shared),
{
    let o = crate::rules::pass_outcome(s, st);
    let g = o.shared.board_history;
    let n = s.board_history.len() as int;
    assert(g[n - 1] == s.board_history[n - 1]);
    assert(g[n].board == s.board);
    assert(g[n - 1].board == s.board);
    assert(!(n - (n - 1) + stones(g[n - 1].board) <= o.shared.capture_count + stones(g[n].board)));
}

} // verus!
