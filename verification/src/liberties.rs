//! The law of liberties: a placement that stands leaves no group without a liberty.

use vstd::prelude::*;
use crate::board::{adjacent, Color, Grid};
use crate::game::{ChangeView, MakeActionError, SharedView};
use crate::groups::{
    connected, has_liberty, is_chain, lemma_connected_same, lemma_connected_step,
    lemma_connected_sym, lemma_connected_trans,
};
use crate::play::{ready, PlayView};
use crate::point_list::{lemma_add_contains, Point};
use crate::rules::{
    capture_outcome, dead_opponents, dead_own, paint, pixel_cells, pixel_played, place_outcome,
    placement,
};

verus! {

/// Whether every stone on the board belongs to a group with a liberty.
pub open spec fn alive(g: Grid<Color>) -> bool {
    forall|p: Point| g.contains(p) && g.at(p) != Color(0) ==> #[trigger] has_liberty(g, p)
}

/// The start of a walk is connected to each of its cells.
pub proof fn lemma_chain_reaches(g: Grid<Color>, path: Seq<Point>, i: int)
    requires
        is_chain(g, path),
        0 <= i < path.len(),
    ensures
        connected(g, path[0], path[i]),
{
    let head = path.subrange(0, i + 1);
    assert forall|k: int| 0 <= k < head.len() implies g.contains(#[trigger] head[k]) && g.at(
        head[k],
    ) == g.at(head[0]) by {
        assert(head[k] == path[k]);
        assert(g.contains(path[k]));
    }
    assert forall|k: int| #![trigger head[k]] 0 <= k < head.len() - 1 implies adjacent(
        head[k],
        head[k + 1],
    ) by {
        assert(adjacent(path[k], path[k + 1]));
    }
    assert(is_chain(g, head));
    assert(head[0] == path[0] && head.last() == path[i]);
}

/// A walk on one board is a walk on another of the same shape that holds the same stones on
/// its cells.
pub proof fn lemma_chain_transfer(a: Grid<Color>, b: Grid<Color>, path: Seq<Point>)
    requires
        is_chain(a, path),
        a.same_shape(b),
        forall|i: int| 0 <= i < path.len() ==> b.at(#[trigger] path[i]) == a.at(path[i]),
    ensures
        is_chain(b, path),
{
    assert forall|i: int| 0 <= i < path.len() implies b.contains(#[trigger] path[i]) && b.at(
        path[i],
    ) == b.at(path[0]) by {
        assert(a.contains(path[i]));
        assert(a.contains(path[0]));
    }
}

/// Connected stones have a liberty together or not at all.
pub proof fn lemma_liberty_shared(g: Grid<Color>, p: Point, q: Point)
    requires
        connected(g, p, q),
    ensures
        has_liberty(g, p) == has_liberty(g, q),
{
    lemma_connected_sym(g, p, q);
    if has_liberty(g, p) {
        let (r, e) = choose|r: Point, e: Point|
            connected(g, p, r) && g.contains(e) && g.at(e) == Color(0) && #[trigger] adjacent(r, e);
        lemma_connected_trans(g, q, p, r);
    }
    if has_liberty(g, q) {
        let (r, e) = choose|r: Point, e: Point|
            connected(g, q, r) && g.contains(e) && g.at(e) == Color(0) && #[trigger] adjacent(r, e);
        lemma_connected_trans(g, p, q, r);
    }
}

/// A group with a liberty keeps it on a board that holds the group's stones as they are
/// and has no stone where there was none.
pub proof fn lemma_liberty_kept(a: Grid<Color>, b: Grid<Color>, p: Point)
    requires
        a.same_shape(b),
        has_liberty(a, p),
        forall|q: Point| #[trigger] connected(a, p, q) ==> b.at(q) == a.at(q),
        forall|e: Point| a.contains(e) && a.at(e) == Color(0) ==> #[trigger] b.at(e) == Color(0),
    ensures
        has_liberty(b, p),
{
    let (q, e) = choose|q: Point, e: Point|
        connected(a, p, q) && a.contains(e) && a.at(e) == Color(0) && #[trigger] adjacent(q, e);
    let path = choose|path: Seq<Point>|
        #[trigger] is_chain(a, path) && path[0] == p && path.last() == q;
    assert forall|i: int| 0 <= i < path.len() implies b.at(#[trigger] path[i]) == a.at(path[i]) by {
        lemma_chain_reaches(a, path, i);
    }
    lemma_chain_transfer(a, b, path);
    assert(connected(b, p, q));
    assert(b.at(e) == Color(0));
    assert(b.contains(e));
}

/// Where a walk leads from a stone that stays to a stone that is taken off the board, the
/// stone that stays has a liberty afterwards.
pub proof fn lemma_first_gap(
    a: Grid<Color>,
    b: Grid<Color>,
    gone: Set<Point>,
    path: Seq<Point>,
    n: int,
)
    requires
        a.same_shape(b),
        is_chain(a, path),
        0 < n < path.len(),
        !gone.contains(path[0]),
        gone.contains(path[n]),
        forall|q: Point| a.contains(q) ==> #[trigger] b.at(q) == (if gone.contains(q) {
            Color(0)
        } else {
            a.at(q)
        }),
    ensures
        has_liberty(b, path[0]),
    decreases n,
{
    if exists|j: int| 0 < j < n && gone.contains(#[trigger] path[j]) {
        let j = choose|j: int| 0 < j < n && gone.contains(#[trigger] path[j]);
        lemma_first_gap(a, b, gone, path, j);
    } else {
        let head = path.subrange(0, n);
        assert forall|k: int| 0 <= k < head.len() implies b.contains(#[trigger] head[k]) && b.at(
            head[k],
        ) == b.at(head[0]) by {
            assert(head[k] == path[k]);
            assert(head[0] == path[0]);
            assert(a.contains(path[k]));
            assert(a.contains(path[0]));
            assert(!gone.contains(path[k]));
        }
        assert forall|k: int| #![trigger head[k]] 0 <= k < head.len() - 1 implies adjacent(
            head[k],
            head[k + 1],
        ) by {
            assert(adjacent(path[k], path[k + 1]));
        }
        assert(is_chain(b, head));
        assert(head[0] == path[0] && head.last() == path[n - 1]);
        assert(connected(b, path[0], path[n - 1]));
        assert(adjacent(path[n - 1], path[n - 1 + 1]));
        assert(a.contains(path[n]));
        assert(b.at(path[n]) == Color(0));
        assert(b.contains(path[n]));
    }
}

/// Every empty cell of a block is among the points that the placement records.
pub proof fn lemma_pixel_played_holds(
    board: Grid<Color>,
    visibility: Option<Grid<u16>>,
    cells: Seq<Point>,
    i: int,
)
    requires
        0 <= i < cells.len(),
        board.at(cells[i]) == Color(0),
    ensures
        pixel_played(board, visibility, cells).contains(cells[i]),
    decreases cells.len(),
{
    let rest = pixel_played(board, visibility, cells.drop_last());
    let c = cells.last();
    let hid = if crate::rules::hidden_at(visibility, c) {
        seq![c]
    } else {
        seq![]
    };
    let put = if board.at(c) == Color(0) {
        seq![c]
    } else {
        seq![]
    };
    lemma_add_contains(rest + hid, put, cells[i]);
    lemma_add_contains(rest, hid, cells[i]);
    if i < cells.len() - 1 {
        lemma_pixel_played_holds(board, visibility, cells.drop_last(), i);
    } else {
        assert(put[0] == cells[i]);
    }
}

/// A placement changes the board only by putting stones of the team to move on empty
/// cells, and each of those cells is among the points played.
pub proof fn lemma_placement_adds(s: SharedView, st: PlayView, p: Point, q: Point)
    requires
        s.board.wf(),
        placement(s, st, p).result is Ok,
        s.board.contains(q),
    ensures
        placement(s, st, p).board.same_shape(s.board),
        placement(s, st, p).board.at(q) == s.board.at(q) || (s.board.at(q) == Color(0)
            && placement(s, st, p).board.at(q) == s.team() && placement(
            s,
            st,
            p,
        ).result->Ok_0.contains(q)),
{
    let pl = placement(s, st, p);
    if s.mods.pixel {
        let cells = pixel_cells(s.board, p.0, p.1);
        let any_placed = exists|i: int|
            0 <= i < cells.len() && s.board.at(#[trigger] cells[i]) == Color(0);
        if any_placed {
            Grid::lemma_tabulate(s.board.width, s.board.height, paint(s.board, s.team(), cells.to_set()));
            assert(pl.board.contains(q));
            if cells.to_set().contains(q) && s.board.at(q) == Color(0) {
                let i = choose|i: int| 0 <= i < cells.len() && cells[i] == q;
                lemma_pixel_played_holds(s.board, s.board_visibility, cells, i);
            }
        }
    } else {
        if s.board.contains(p) && s.board.at(p) == Color(0) {
            s.board.lemma_with(p, s.team());
            if q == p {
                assert(seq![p][0] == p);
            }
        }
    }
}

/// A placement that stands, or that only reveals, leaves no group without a liberty on a
/// board that had none.
pub proof fn law_liberties(s: SharedView, st: PlayView, p: Point)
    requires
        ready(s, st),
        alive(s.board),
        place_outcome(s, st, p).result == Ok::<ChangeView, MakeActionError>(ChangeView::NoChange),
    ensures
        alive(place_outcome(s, st, p).shared.board),
{
    let o = place_outcome(s, st, p);
    let pl = placement(s, st, p);
    let played = pl.result->Ok_0;
    let t = s.team();
    assert(s.seats[s.turn as int].team.0 >= 1);
    if played.len() == 0 {
    } else {
        let b0 = s.board;
        let b1 = pl.board;
        let fallen = dead_opponents(b1, t);
        let b2 = b1.blank(fallen, Color(0));
        let own = dead_own(b2, t);
        let undone = own.intersect(played.to_set());
        let b3 = b2.blank(undone, Color(0));
        let cap = capture_outcome(
            pl.board,
            pl.visibility,
            s.points,
            s.mods.ponnuki_is_points,
            t,
            played,
        );
        assert(cap.board == b3);
        if cap.played.len() == 0 {
            assert(o.shared.board == s.board);
        } else {
            assert(o.shared.board == b3);
            crate::placement::lemma_placement_shape(s, st, p);
            b1.lemma_blank(fallen, Color(0));
            b2.lemma_blank(undone, Color(0));
            assert forall|x: Point|
                b3.contains(x) && b3.at(x) != Color(0) implies #[trigger] has_liberty(
                b3,
                x,
            ) by {
                assert(b2.contains(x) && b1.contains(x) && b0.contains(x));
                assert(b2.at(x) == b3.at(x));
                assert(b1.at(x) == b2.at(x));
                if b3.at(x) != t {
                    // a stone of another team that was not captured
                    assert(has_liberty(b1, x));
                    assert forall|q: Point|
                        #[trigger] connected(b1, x, q) implies b2.at(q) == b1.at(
                        q,
                    ) by {
                        lemma_connected_same(b1, x, q);
                        lemma_liberty_shared(b1, x, q);
                    }
                    lemma_liberty_kept(b1, b2, x);
                    assert forall|q: Point|
                        #[trigger] connected(b2, x, q) implies b3.at(q) == b2.at(
                        q,
                    ) by {
                        lemma_connected_same(b2, x, q);
                    }
                    lemma_liberty_kept(b2, b3, x);
                } else if has_liberty(b2, x) {
                    assert forall|q: Point|
                        #[trigger] connected(b2, x, q) implies b3.at(q) == b2.at(
                        q,
                    ) by {
                        lemma_connected_same(b2, x, q);
                        lemma_liberty_shared(b2, x, q);
                    }
                    lemma_liberty_kept(b2, b3, x);
                } else {
                    // a stone of the team to move in a group that the move left without a
                    // liberty: it was there before, and a stone just placed is in its group
                    assert(own.contains(x));
                    assert(!played.contains(x)) by {
                        if played.contains(x) {
                            assert(played.to_set().contains(x));
                            assert(undone.contains(x));
                        }
                    }
                    lemma_placement_adds(s, st, p, x);
                    assert(b0.at(x) == t);
                    assert(has_liberty(b0, x));
                    let (q0, e0) = choose|q: Point, e: Point|
                        connected(b0, x, q) && b0.contains(e) && b0.at(e) == Color(0) && #[trigger] adjacent(
                            q,
                            e,
                        );
                    let path = choose|path: Seq<Point>| #[trigger]
                        is_chain(b0, path) && path[0] == x && path.last() == q0;
                    assert forall|i: int| 0 <= i < path.len() implies b2.at(#[trigger] path[i])
                        == b0.at(path[i]) by {
                        assert(b0.contains(path[i]));
                        lemma_placement_adds(s, st, p, path[i]);
                        assert(b0.at(path[i]) == b0.at(path[0]));
                    }
                    lemma_chain_transfer(b0, b2, path);
                    assert(connected(b2, x, q0));
                    lemma_connected_same(b2, x, q0);
                    lemma_placement_adds(s, st, p, e0);
                    assert(b2.contains(e0));
                    if b2.at(e0) == Color(0) {
                        assert(has_liberty(b2, x));
                    }
                    assert(b1.at(e0) == t && played.contains(e0));
                    assert(b2.at(e0) == t);
                    lemma_connected_step(b2, x, q0, e0);
                    lemma_liberty_shared(b2, x, e0);
                    assert(own.contains(e0));
                    assert(played.to_set().contains(e0));
                    assert(undone.contains(e0));
                    let longer = path.push(e0);
                    assert(is_chain(b2, longer)) by {
                        assert forall|i: int| 0 <= i < longer.len() implies b2.contains(
                            #[trigger] longer[i],
                        ) && b2.at(longer[i]) == b2.at(longer[0]) by {
                            if i < path.len() {
                                assert(longer[i] == path[i]);
                                assert(b2.contains(path[i]));
                                assert(b2.at(path[i]) == b2.at(path[0]));
                            }
                        }
                        assert forall|i: int|
                            #![trigger longer[i]] 0 <= i < longer.len() - 1 implies adjacent(
                            longer[i],
                            longer[i + 1],
                        ) by {
                            if i < path.len() - 1 {
                                assert(longer[i] == path[i]);
                                assert(longer[i + 1] == path[i + 1]);
                                assert(adjacent(path[i], path[i + 1]));
                            }
                        }
                    }
                    assert(!undone.contains(longer[0]));
                    lemma_first_gap(b2, b3, undone, longer, path.len() as int);
                }
            }
        }
    }
}

} // verus!
