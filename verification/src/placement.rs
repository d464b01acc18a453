//! Putting stones on the board, before any capture.

use vstd::prelude::*;
use crate::board::{Board, Color, Grid};
use crate::game::{visibility_view, MakeActionError, SharedView};
use crate::play::PlayView;
use crate::point_list::{GroupVec, Point};
use crate::rules::{
    hidden_at, paint, painted, pixel_cells, pixel_played, place_pixel, place_single, placement,
    uncovered,
};
use crate::visibility::{wiped, VisibilityBoard};

verus! {

/// The points of a list, if there is one.
pub open spec fn stone_view(o: Option<GroupVec>) -> Option<Seq<Point>> {
    match o {
        Some(v) => Some(v@),
        None => None,
    }
}

/// Uncovering one cell writes an empty mask to it.
pub proof fn lemma_uncover_one(v: Grid<u16>, p: Point)
    requires
        v.wf(),
        v.contains(p),
    ensures
        wiped(v, set![p]) == v.with(p, 0u16),
        v.at(p) == 0 ==> v.with(p, 0u16) == v,
{
    v.lemma_blank_nothing(0u16);
    v.lemma_blank_with(Set::empty(), 0u16, p);
    assert(Set::<Point>::empty().insert(p) =~= set![p]);
    if v.at(p) == 0 {
        v.lemma_index(p);
        assert(v.with(p, 0u16).cells =~= v.cells);
    }
}

/// Makes the cell at `p` visible to all in the overlay, if there is one, and says whether
/// its stone was hidden.
pub fn uncover_at(visibility: &mut Option<VisibilityBoard>, p: Point) -> (was_hidden: bool)
    requires
        *old(visibility) matches Some(v) ==> v.wf() && v@.contains(p),
    ensures
        *final(visibility) matches Some(v) ==> v.wf() && v@.same_shape(
            visibility_view(*old(visibility))->0,
        ),
        visibility_view(*final(visibility)) == uncovered(visibility_view(*old(visibility)), set![p]),
        was_hidden == hidden_at(visibility_view(*old(visibility)), p),
{
    match visibility {
        Some(v) => {
            proof {
                lemma_uncover_one(v@, p);
                v@.lemma_with(p, 0u16);
            }
            v.uncover(p)
        },
        None => false,
    }
}

/// Places one stone of `team` at `p`, or reveals the hidden stone that is there.
pub fn place_one(
    board: &mut Board<Color>,
    visibility: &mut Option<VisibilityBoard>,
    last_stone: &mut Option<GroupVec>,
    team: Color,
    p: Point,
) -> (r: Result<GroupVec, MakeActionError>)
    requires
        old(board).wf(),
        *old(visibility) matches Some(v) ==> v.wf() && v@.same_shape(old(board)@),
    ensures
        ({
            let pl = place_single(
                old(board)@,
                visibility_view(*old(visibility)),
                stone_view(*old(last_stone)),
                team,
                p,
            );
            &&& final(board)@ == pl.board
            &&& visibility_view(*final(visibility)) == pl.visibility
            &&& stone_view(*final(last_stone)) == pl.last_stone
            &&& match r {
                Ok(played) => pl.result == Ok::<Seq<Point>, MakeActionError>(played@),
                Err(e) => pl.result == Err::<Seq<Point>, MakeActionError>(e),
            }
        }),
        final(board).wf(),
        final(board)@.same_shape(old(board)@),
        *final(visibility) matches Some(v) ==> v.wf() && v@.same_shape(old(board)@),
        r matches Ok(played) ==> forall|i: int|
            0 <= i < played@.len() ==> old(board)@.contains(#[trigger] played@[i]),
{
    let mut points_played = GroupVec::new();
    if !board.point_within(p) {
        return Err(MakeActionError::OutOfBounds);
    }
    let ghost v0 = visibility_view(*visibility);
    proof {
        if let Some(v) = v0 {
            lemma_uncover_one(v, p);
        }
    }
    let revealed = uncover_at(visibility, p);
    if !board.get_point(p).is_empty() {
        if revealed {
            let mut shown = GroupVec::new();
            shown.push(p);
            proof {
                assert(shown@ =~= seq![p]);
            }
            *last_stone = Some(shown);
            return Ok(points_played);
        }
        return Err(MakeActionError::PointOccupied);
    }
    proof {
        board@.lemma_with(p, team);
    }
    board.set_point(p, team);
    points_played.push(p);
    proof {
        assert(points_played@ =~= seq![p]);
    }
    Ok(points_played)
}

/// Painting one more cell paints a set with one more point.
pub proof fn lemma_painted_with(g: Grid<Color>, team: Color, s: Set<Point>, p: Point)
    requires
        g.wf(),
        g.contains(p),
        !s.contains(p),
    ensures
        painted(g, team, s).wf(),
        painted(g, team, s).same_shape(g),
        painted(g, team, s).at(p) == g.at(p),
        g.at(p) == Color(0) ==> painted(g, team, s).with(p, team) == painted(g, team, s.insert(p)),
        g.at(p) != Color(0) ==> painted(g, team, s) == painted(g, team, s.insert(p)),
{
    Grid::lemma_tabulate(g.width, g.height, paint(g, team, s));
    Grid::lemma_tabulate(g.width, g.height, paint(g, team, s.insert(p)));
    let a = painted(g, team, s);
    let b = painted(g, team, s.insert(p));
    assert(a.contains(p));
    a.lemma_with(p, team);
    if g.at(p) == Color(0) {
        let c = a.with(p, team);
        assert forall|q: Point| #[trigger] c.contains(q) implies c.at(q) == b.at(q) by {
            assert(a.contains(q));
            assert(b.contains(q));
        }
        c.lemma_equal(b);
    } else {
        assert forall|q: Point| #[trigger] a.contains(q) implies a.at(q) == b.at(q) by {
            assert(b.contains(q));
        }
        a.lemma_equal(b);
    }
}

/// Painting where no cell is empty changes nothing, and so does painting no cell.
pub proof fn lemma_painted_nothing(g: Grid<Color>, team: Color, s: Set<Point>)
    requires
        g.wf(),
        forall|q: Point| s.contains(q) && g.contains(q) ==> g.at(q) != Color(0),
    ensures
        painted(g, team, s) == g,
{
    Grid::lemma_tabulate(g.width, g.height, paint(g, team, s));
    let a = painted(g, team, s);
    assert forall|q: Point| #[trigger] a.contains(q) implies a.at(q) == g.at(q) by {
        assert(g.contains(q));
    }
    a.lemma_equal(g);
}

/// The cells of a block lie on the board, and none is listed twice.
pub proof fn lemma_pixel_cells(g: Grid<Color>, x: u32, y: u32)
    requires
        x <= g.width,
        y <= g.height,
    ensures
        pixel_cells(g, x, y).no_duplicates(),
        forall|i: int|
            0 <= i < pixel_cells(g, x, y).len() ==> g.contains(#[trigger] pixel_cells(g, x, y)[i]),
{
}

/// The cells on the board of the block that `(x, y)` addresses.
fn block_cells(board: &Board<Color>, x: u32, y: u32) -> (cells: Vec<Point>)
    requires
        x <= board.width,
        y <= board.height,
    ensures
        cells@ == pixel_cells(board@, x, y),
{
    let mut cells: Vec<Point> = Vec::new();
    if x >= 1 && y >= 1 {
        cells.push((x - 1, y - 1));
    }
    if x < board.width && y >= 1 {
        cells.push((x, y - 1));
    }
    if x >= 1 && y < board.height {
        cells.push((x - 1, y));
    }
    if x < board.width && y < board.height {
        cells.push((x, y));
    }
    proof {
        assert(cells@ =~= pixel_cells(board@, x, y));
    }
    cells
}

/// Places a block of stones of `team`, or reveals the hidden stones of the block.
pub fn place_block(
    board: &mut Board<Color>,
    visibility: &mut Option<VisibilityBoard>,
    last_stone: &mut Option<GroupVec>,
    team: Color,
    x: u32,
    y: u32,
) -> (r: Result<GroupVec, MakeActionError>)
    requires
        old(board).wf(),
        *old(visibility) matches Some(v) ==> v.wf() && v@.same_shape(old(board)@),
    ensures
        ({
            let pl = place_pixel(
                old(board)@,
                visibility_view(*old(visibility)),
                stone_view(*old(last_stone)),
                team,
                x,
                y,
            );
            &&& final(board)@ == pl.board
            &&& visibility_view(*final(visibility)) == pl.visibility
            &&& stone_view(*final(last_stone)) == pl.last_stone
            &&& match r {
                Ok(played) => pl.result == Ok::<Seq<Point>, MakeActionError>(played@),
                Err(e) => pl.result == Err::<Seq<Point>, MakeActionError>(e),
            }
        }),
        final(board).wf(),
        final(board)@.same_shape(old(board)@),
        *final(visibility) matches Some(v) ==> v.wf() && v@.same_shape(old(board)@),
        r matches Ok(played) ==> forall|i: int|
            0 <= i < played@.len() ==> old(board)@.contains(#[trigger] played@[i]),
{
    if x > board.width || y > board.height {
        return Err(MakeActionError::OutOfBounds);
    }
    let ghost g = board@;
    let ghost v0 = visibility_view(*visibility);
    let cells = block_cells(board, x, y);
    let mut points_played = GroupVec::new();
    let mut any_placed = false;
    let mut any_revealed = false;
    let mut k: usize = 0;
    proof {
        lemma_pixel_cells(g, x, y);
        assert(cells@.subrange(0, 0) =~= Seq::<Point>::empty());
        assert(cells@.subrange(0, 0).to_set() =~= Set::empty());
        lemma_painted_nothing(g, team, Set::empty());
        crate::capture::lemma_uncover_nothing(v0);
    }
    while k < cells.len()
        invariant
            k <= cells@.len(),
            g.wf(),
            board.wf(),
            cells@ == pixel_cells(g, x, y),
            cells@.no_duplicates(),
            forall|i: int| 0 <= i < cells@.len() ==> g.contains(#[trigger] cells@[i]),
            v0 matches Some(v) ==> v.wf() && v.same_shape(g),
            *visibility matches Some(v) ==> v.wf() && v@.same_shape(g),
            board@ == painted(g, team, cells@.subrange(0, k as int).to_set()),
            visibility_view(*visibility) == uncovered(v0, cells@.subrange(0, k as int).to_set()),
            points_played@ == pixel_played(g, v0, cells@.subrange(0, k as int)),
            any_placed == exists|i: int| 0 <= i < k && g.at(#[trigger] cells@[i]) == Color(0),
            any_revealed == exists|i: int| 0 <= i < k && hidden_at(v0, #[trigger] cells@[i]),
            forall|i: int|
                0 <= i < points_played@.len() ==> g.contains(#[trigger] points_played@[i]),
        decreases cells@.len() - k,
    {
        let c = cells[k];
        let ghost done = cells@.subrange(0, k as int);
        let ghost next = cells@.subrange(0, k + 1);
        let ghost before = points_played@;
        proof {
            assert(next =~= done.push(c));
            assert(next.drop_last() =~= done);
            done.lemma_push_to_set_commute(c);
            assert(!done.to_set().contains(c)) by {
                if done.contains(c) {
                    let i = choose|i: int| 0 <= i < done.len() && done[i] == c;
                    assert(cells@[i] == cells@[k as int]);
                }
            }
            assert(g.contains(cells@[k as int]));
            lemma_painted_with(g, team, done.to_set(), c);
            crate::capture::lemma_uncover_step(v0, done.to_set(), set![c]);
            assert(done.to_set().union(set![c]) =~= done.to_set().insert(c));
            if let Some(v) = v0 {
                v.lemma_blank(done.to_set(), 0u16);
            }
        }
        let was_hidden = uncover_at(visibility, c);
        if was_hidden {
            any_revealed = true;
            points_played.push(c);
        }
        if board.get_point(c).is_empty() {
            board.set_point(c, team);
            points_played.push(c);
            any_placed = true;
        }
        proof {
            assert(was_hidden == hidden_at(v0, c));
            assert(points_played@ =~= pixel_played(g, v0, next));
            assert forall|i: int| 0 <= i < points_played@.len() implies g.contains(
                #[trigger] points_played@[i],
            ) by {
                if i < before.len() {
                    assert(points_played@[i] == before[i]);
                }
            }
        }
        k += 1;
    }
    proof {
        assert(cells@.subrange(0, cells@.len() as int) =~= cells@);
    }
    if !any_placed {
        proof {
            assert forall|q: Point| cells@.to_set().contains(q) && g.contains(q) implies g.at(q)
                != Color(0) by {
                let i = choose|i: int| 0 <= i < cells@.len() && cells@[i] == q;
                assert(g.at(cells@[i]) != Color(0));
            }
            lemma_painted_nothing(g, team, cells@.to_set());
        }
        if any_revealed {
            *last_stone = Some(points_played);
            return Ok(GroupVec::new());
        }
        proof {
            if let Some(v) = v0 {
                assert(!crate::visibility::hides_any(v, cells@.to_set())) by {
                    if crate::visibility::hides_any(v, cells@.to_set()) {
                        let q = choose|q: Point|
                            cells@.to_set().contains(q) && v.contains(q) && #[trigger] v.at(q) != 0;
                        let i = choose|i: int| 0 <= i < cells@.len() && cells@[i] == q;
                        assert(hidden_at(v0, cells@[i]));
                    }
                }
                crate::visibility::lemma_wiped_unhidden(v, cells@.to_set());
            }
        }
        return Err(MakeActionError::PointOccupied);
    }
    Ok(points_played)
}

/// A block with an empty cell records at least one point.
pub proof fn lemma_pixel_played_some(
    board: Grid<Color>,
    visibility: Option<Grid<u16>>,
    cells: Seq<Point>,
    i: int,
)
    requires
        0 <= i < cells.len(),
        board.at(cells[i]) == Color(0),
    ensures
        pixel_played(board, visibility, cells).len() > 0,
    decreases cells.len(),
{
    if i < cells.len() - 1 {
        lemma_pixel_played_some(board, visibility, cells.drop_last(), i);
    }
}

/// A placement that plays no point leaves the board as it is.
pub proof fn lemma_placement_empty(s: SharedView, st: PlayView, p: Point)
    requires
        placement(s, st, p).result matches Ok(played) && played.len() == 0,
    ensures
        placement(s, st, p).board == s.board,
{
    if s.mods.pixel {
        let cells = pixel_cells(s.board, p.0, p.1);
        if exists|i: int| 0 <= i < cells.len() && s.board.at(#[trigger] cells[i]) == Color(0) {
            let i = choose|i: int|
                0 <= i < cells.len() && s.board.at(#[trigger] cells[i]) == Color(0);
            lemma_pixel_played_some(s.board, s.board_visibility, cells, i);
        }
    }
}

/// A placement leaves a board and an overlay of the shape they had.
pub proof fn lemma_placement_shape(s: SharedView, st: PlayView, p: Point)
    requires
        s.board.wf(),
        s.board_visibility matches Some(v) ==> v.wf() && v.same_shape(s.board),
    ensures
        placement(s, st, p).board.wf(),
        placement(s, st, p).board.same_shape(s.board),
        placement(s, st, p).visibility is Some == s.board_visibility is Some,
        placement(s, st, p).visibility matches Some(v) ==> v.wf() && v.same_shape(s.board),
{
    let pl = placement(s, st, p);
    if let Some(v) = s.board_visibility {
        v.lemma_blank(set![p], 0u16);
        v.lemma_blank(pixel_cells(s.board, p.0, p.1).to_set(), 0u16);
    }
    if s.mods.pixel {
        Grid::lemma_tabulate(
            s.board.width,
            s.board.height,
            paint(s.board, s.team(), pixel_cells(s.board, p.0, p.1).to_set()),
        );
    } else {
        if s.board.contains(p) {
            s.board.lemma_with(p, s.team());
        }
    }
}

} // verus!
