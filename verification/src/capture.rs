//! The capture pass: taking groups without liberties off the board.

use vstd::prelude::*;
use crate::board::{adjacent, Board, Color, Grid};
use crate::game::visibility_view;
use crate::groups::{
    closed_under, connected, find_groups, group_of, has_liberty, lemma_closed_holds_group,
    lemma_connected_same, lemma_connected_sym, lemma_connected_trans, liberties_of, lists_groups,
    Group,
};
use crate::point_list::{
    append_points, lemma_add_contains, lemma_filter_agree, lemma_filter_twice,
    lemma_push_contains, other_than, GroupVec, Point,
};
use crate::rules::{
    add_times, count_stones, dead_opponents, dead_own, outside, ponnuki, ponnuki_count, stones,
    touched, uncovered,
};
use crate::visibility::{hides_any, uncover_all, wiped, VisibilityBoard};

verus! {

/// There are no more stones than cells.
pub proof fn lemma_count_bound(cells: Seq<Color>)
    ensures
        count_stones(cells) <= cells.len(),
    decreases cells.len(),
{
    if cells.len() > 0 {
        lemma_count_bound(cells.drop_last());
    }
}

/// Writing to one cell changes the number of stones by what leaves and what comes.
pub proof fn lemma_count_update(cells: Seq<Color>, i: int, c: Color)
    requires
        0 <= i < cells.len(),
    ensures
        count_stones(cells.update(i, c)) + (if cells[i] != Color(0) {
            1nat
        } else {
            0nat
        }) == count_stones(cells) + (if c != Color(0) {
            1nat
        } else {
            0nat
        }),
    decreases cells.len(),
{
    let after = cells.update(i, c);
    if i == cells.len() - 1 {
        assert(after.drop_last() =~= cells.drop_last());
    } else {
        assert(after.drop_last() =~= cells.drop_last().update(i, c));
        lemma_count_update(cells.drop_last(), i, c);
    }
}

/// Taking a stone off the board leaves one stone less.
pub proof fn lemma_stone_removed(g: Grid<Color>, p: Point)
    requires
        g.wf(),
        g.contains(p),
        g.at(p) != Color(0),
    ensures
        stones(g.with(p, Color(0))) + 1 == stones(g),
{
    g.lemma_index(p);
    lemma_count_update(g.cells, g.index(p), Color(0));
}

/// Putting a stone on an empty cell leaves one stone more.
pub proof fn lemma_stone_added(g: Grid<Color>, p: Point, c: Color)
    requires
        g.wf(),
        g.contains(p),
        g.at(p) == Color(0),
        c != Color(0),
    ensures
        stones(g.with(p, c)) == stones(g) + 1,
{
    g.lemma_index(p);
    lemma_count_update(g.cells, g.index(p), c);
}

/// A point of a group is a stone of the group's team, and the group counts no liberty
/// exactly when the stone's group has none.
pub proof fn lemma_group_member(g: Grid<Color>, grp: Group, p: Point)
    requires
        g.wf(),
        grp.describes(g),
        grp.points@.contains(p),
    ensures
        g.contains(p),
        g.at(p) == grp.team,
        connected(g, grp.points@[0], p),
        (grp.liberties == 0) <==> !has_liberty(g, p),
{
    let seed = grp.points@[0];
    let s = grp.points@.to_set();
    assert(s.contains(p));
    assert(group_of(g, seed).contains(p));
    lemma_connected_same(g, seed, p);
    lemma_connected_sym(g, seed, p);
    let libs = liberties_of(g, s);
    if grp.liberties != 0 {
        assert(libs.len() != 0);
        let e = libs.choose();
        assert(libs.contains(e)) by {
            if !libs.contains(e) {
                assert(forall|x: Point| !libs.contains(x));
                assert(libs =~= Set::empty());
            }
        }
        let q = choose|q: Point| s.contains(q) && #[trigger] adjacent(q, e);
        assert(group_of(g, seed).contains(q));
        lemma_connected_trans(g, p, seed, q);
        assert(has_liberty(g, p));
    }
    if has_liberty(g, p) {
        let (q, e) = choose|q: Point, e: Point|
            connected(g, p, q) && g.contains(e) && g.at(e) == Color(0) && #[trigger] adjacent(q, e);
        lemma_connected_trans(g, seed, p, q);
        assert(group_of(g, seed).contains(q));
        assert(s.contains(q));
        assert(libs.contains(e));
        if libs.len() == 0 {
            libs.lemma_len0_is_empty();
            assert(false);
        }
    }
}

/// A stone with no neighbour of its colour is alone in its group.
pub proof fn lemma_lone_stone(g: Grid<Color>, p: Point, q: Point)
    requires
        g.wf(),
        g.contains(p),
        forall|r: Point| g.contains(r) && #[trigger] adjacent(p, r) ==> g.at(r) != g.at(p),
        connected(g, p, q),
    ensures
        q == p,
{
    let s = set![p];
    assert(closed_under(g, s));
    lemma_closed_holds_group(g, s, p, q);
}

/// Where the first point of a group is a lone stone that the team surrounds, the group is
/// that stone, has no liberty and is of another team; and no other point of a group is such
/// a stone.
pub proof fn lemma_ponnuki_group(g: Grid<Color>, team: Color, grp: Group)
    requires
        g.wf(),
        team != Color(0),
        grp.describes(g),
    ensures
        ponnuki(g, team, grp.points@[0]) ==> grp.points@.len() == 1 && grp.liberties == 0
            && grp.team != team,
        forall|q: Point| #[trigger]
            grp.points@.contains(q) && ponnuki(g, team, q) ==> q == grp.points@[0],
{
    let seed = grp.points@[0];
    assert(grp.points@.contains(seed));
    assert forall|q: Point| #[trigger] grp.points@.contains(q) && ponnuki(g, team, q) implies q
        == seed by {
        lemma_group_member(g, grp, q);
        lemma_connected_sym(g, seed, q);
        lemma_lone_stone(g, q, seed);
    }
    if ponnuki(g, team, seed) {
        lemma_group_member(g, grp, seed);
        assert forall|i: int| 0 <= i < grp.points@.len() implies grp.points@[i] == seed by {
            let q = grp.points@[i];
            assert(grp.points@.contains(q));
            lemma_group_member(g, grp, q);
            lemma_lone_stone(g, seed, q);
        }
        if grp.points@.len() > 1 {
            assert(grp.points@[0] == grp.points@[1]);
        }
        if has_liberty(g, seed) {
            let (q, e) = choose|q: Point, e: Point|
                connected(g, seed, q) && g.contains(e) && g.at(e) == Color(0) && #[trigger] adjacent(
                    q,
                    e,
                );
            lemma_lone_stone(g, seed, q);
        }
    }
}

/// Counting over more cells adds nothing where none of them qualifies.
pub proof fn lemma_ponnuki_gap(g: Grid<Color>, team: Color, a: nat, b: nat)
    requires
        a <= b,
        forall|i: int| a <= i < b ==> !ponnuki(g, team, #[trigger] g.point(i)),
    ensures
        ponnuki_count(g, team, b) == ponnuki_count(g, team, a),
    decreases b - a,
{
    if a < b {
        lemma_ponnuki_gap(g, team, a, (b - 1) as nat);
        assert(!ponnuki(g, team, g.point(b - 1)));
    }
}

/// The cells touched by a union are those touched by either part.
pub proof fn lemma_touched_union(g: Grid<Color>, a: Set<Point>, b: Set<Point>)
    ensures
        touched(g, a.union(b)) == touched(g, a).union(touched(g, b)),
{
    assert forall|q: Point| touched(g, a.union(b)).contains(q) implies touched(g, a).union(
        touched(g, b),
    ).contains(q) by {
        if !a.union(b).contains(q) {
            let r = choose|r: Point| a.union(b).contains(r) && #[trigger] adjacent(r, q);
            if a.contains(r) {
                assert(touched(g, a).contains(q));
            } else {
                assert(touched(g, b).contains(q));
            }
        }
    }
    assert forall|q: Point| touched(g, a).union(touched(g, b)).contains(q) implies touched(
        g,
        a.union(b),
    ).contains(q) by {
        if touched(g, a).contains(q) {
            if !a.contains(q) {
                let r = choose|r: Point| a.contains(r) && #[trigger] adjacent(r, q);
                assert(a.union(b).contains(r));
            }
        } else {
            if !b.contains(q) {
                let r = choose|r: Point| b.contains(r) && #[trigger] adjacent(r, q);
                assert(a.union(b).contains(r));
            }
        }
    }
    assert(touched(g, a.union(b)) =~= touched(g, a).union(touched(g, b)));
}

/// Whether the overlay, if there is one, hides a stone on a cell of `s`.
pub open spec fn hides(visibility: Option<Grid<u16>>, s: Set<Point>) -> bool {
    visibility matches Some(v) && hides_any(v, s)
}

/// Uncovering one set and then another uncovers their union, and something was hidden in
/// the union exactly when it was in the first set or, after that was uncovered, in the
/// second.
pub proof fn lemma_uncover_step(visibility: Option<Grid<u16>>, a: Set<Point>, b: Set<Point>)
    requires
        visibility matches Some(v) ==> v.wf(),
    ensures
        uncovered(uncovered(visibility, a), b) == uncovered(visibility, a.union(b)),
        hides(visibility, a.union(b)) == (hides(visibility, a) || hides(uncovered(visibility, a), b)),
{
    match visibility {
        Some(v) => {
            v.lemma_blank_twice(a, b, 0u16);
            v.lemma_blank(a, 0u16);
            let w = wiped(v, a);
            if hides_any(v, a.union(b)) {
                let q = choose|q: Point|
                    a.union(b).contains(q) && v.contains(q) && #[trigger] v.at(q) != 0;
                if !a.contains(q) {
                    assert(w.contains(q) && w.at(q) != 0);
                }
            }
            if hides_any(v, a) {
                let q = choose|q: Point| a.contains(q) && v.contains(q) && #[trigger] v.at(q) != 0;
                assert(a.union(b).contains(q));
            }
            if hides_any(w, b) {
                let q = choose|q: Point| b.contains(q) && w.contains(q) && #[trigger] w.at(q) != 0;
                assert(v.contains(q));
                assert(a.union(b).contains(q) && v.at(q) != 0);
            }
        },
        None => {},
    }
}

/// Uncovering no cell changes nothing, and nothing is hidden on no cell.
pub proof fn lemma_uncover_nothing(visibility: Option<Grid<u16>>)
    requires
        visibility matches Some(v) ==> v.wf(),
    ensures
        uncovered(visibility, Set::empty()) == visibility,
        !hides(visibility, Set::empty()),
{
    match visibility {
        Some(v) => {
            v.lemma_blank_nothing(0u16);
        },
        None => {},
    }
}

/// The points of a list with their neighbours on the board.
fn surroundings(board: &Board<Color>, points: &GroupVec) -> (area: Vec<Point>)
    requires
        board.wf(),
        forall|i: int| 0 <= i < points@.len() ==> board@.contains(#[trigger] points@[i]),
    ensures
        area@.to_set() == touched(board@, points@.to_set()),
        forall|i: int| 0 <= i < area@.len() ==> board@.contains(#[trigger] area@[i]),
{
    let ghost g = board@;
    let mut area: Vec<Point> = Vec::new();
    let n = points.len();
    let mut k: usize = 0;
    while k < n
        invariant
            g == board@,
            board.wf(),
            k <= n,
            n == points@.len(),
            forall|i: int| 0 <= i < points@.len() ==> g.contains(#[trigger] points@[i]),
            forall|i: int| 0 <= i < area@.len() ==> g.contains(#[trigger] area@[i]),
            forall|q: Point|
                area@.contains(q) <==> touched(g, points@.subrange(0, k as int).to_set()).contains(q),
        decreases n - k,
    {
        let p = points.get(k);
        let nbrs = board.surrounding_points(p);
        let ghost before = area@;
        area.push(p);
        let ghost mid = area@;
        append_points(&mut area, &nbrs);
        proof {
            g.lemma_neighbors(p);
            let done = points@.subrange(0, k as int);
            let next = points@.subrange(0, k + 1);
            assert(next =~= done.push(p));
            done.lemma_push_to_set_commute(p);
            assert(next.to_set() =~= done.to_set().union(set![p]));
            lemma_touched_union(g, done.to_set(), set![p]);
            assert forall|q: Point|
                area@.contains(q) <==> touched(g, next.to_set()).contains(q) by {
                lemma_push_contains(before, p, q);
                lemma_add_contains(mid, nbrs@, q);
                if touched(g, set![p]).contains(q) && q != p {
                    let r = choose|r: Point| set![p].contains(r) && #[trigger] adjacent(r, q);
                    assert(r == p);
                }
                if nbrs@.contains(q) {
                    assert(set![p].contains(p) && adjacent(p, q));
                }
            }
            assert forall|i: int| 0 <= i < area@.len() implies g.contains(#[trigger] area@[i]) by {
                if i < before.len() {
                    assert(area@[i] == before[i]);
                } else if i == before.len() {
                    assert(area@[i] == p);
                } else {
                    assert(area@[i] == nbrs@[i - mid.len()]);
                    assert(nbrs@.contains(nbrs@[i - mid.len()]));
                }
            }
        }
        k += 1;
    }
    proof {
        assert(points@.subrange(0, n as int) =~= points@);
        assert(area@.to_set() =~= touched(g, points@.to_set()));
    }
    area
}

/// Makes the cells of a group and their neighbours visible to all, and says whether one of
/// them was hidden.
pub fn reveal_group(
    visibility: &mut Option<VisibilityBoard>,
    group: &Group,
    board: &Board<Color>,
) -> (revealed: bool)
    requires
        board.wf(),
        forall|i: int|
            0 <= i < group.points@.len() ==> board@.contains(#[trigger] group.points@[i]),
        *old(visibility) matches Some(v) ==> v.wf() && v@.same_shape(board@),
    ensures
        visibility_view(*final(visibility)) == uncovered(
            visibility_view(*old(visibility)),
            touched(board@, group.points@.to_set()),
        ),
        revealed == hides(
            visibility_view(*old(visibility)),
            touched(board@, group.points@.to_set()),
        ),
        *final(visibility) matches Some(v) ==> v.wf() && v@.same_shape(board@),
{
    match visibility {
        Some(v) => {
            let area = surroundings(board, &group.points);
            proof {
                v@.lemma_blank(area@.to_set(), 0u16);
            }
            uncover_all(v, &area)
        },
        None => false,
    }
}

/// Whether the group has no liberty and is of `team` (`own`) or of another (`!own`).
pub open spec fn is_fallen(grp: Group, team: Color, own: bool) -> bool {
    grp.liberties == 0 && ((grp.team == team) == own)
}

/// The points of the fallen groups among the first `j`.
pub open spec fn fallen(groups: Seq<Group>, team: Color, own: bool, j: int) -> Set<Point> {
    Set::new(
        |p: Point|
            exists|k: int|
                0 <= k < j && is_fallen(groups[k], team, own) && #[trigger] groups[k].points@.contains(
                    p,
                ),
    )
}

/// The fallen points among one more group are those among the groups before, with the
/// points of that group if it is fallen.
pub proof fn lemma_fallen_step(groups: Seq<Group>, team: Color, own: bool, j: int)
    requires
        0 <= j < groups.len(),
    ensures
        fallen(groups, team, own, j + 1) == fallen(groups, team, own, j).union(
            if is_fallen(groups[j], team, own) {
                groups[j].points@.to_set()
            } else {
                Set::empty()
            },
        ),
{
    let a = fallen(groups, team, own, j + 1);
    let b = fallen(groups, team, own, j).union(
        if is_fallen(groups[j], team, own) {
            groups[j].points@.to_set()
        } else {
            Set::empty()
        },
    );
    assert forall|p: Point| a.contains(p) implies b.contains(p) by {
        let k = choose|k: int|
            0 <= k < j + 1 && is_fallen(groups[k], team, own) && #[trigger] groups[k].points@.contains(
                p,
            );
        if k < j {
            assert(fallen(groups, team, own, j).contains(p));
        }
    }
    assert forall|p: Point| b.contains(p) implies a.contains(p) by {
        if fallen(groups, team, own, j).contains(p) {
            let k = choose|k: int|
                0 <= k < j && is_fallen(groups[k], team, own) && #[trigger] groups[k].points@.contains(
                    p,
                );
            assert(groups[k].points@.contains(p));
        } else {
            assert(groups[j].points@.contains(p));
        }
    }
    assert(a =~= b);
}

/// The fallen points among all the groups of a board are its dead stones.
pub proof fn lemma_fallen_all(g: Grid<Color>, groups: Seq<Group>, team: Color)
    requires
        g.wf(),
        team != Color(0),
        lists_groups(g, groups),
    ensures
        fallen(groups, team, false, groups.len() as int) == dead_opponents(g, team),
        fallen(groups, team, true, groups.len() as int) == dead_own(g, team),
{
    let n = groups.len() as int;
    assert forall|p: Point, own: bool| #[trigger]
        fallen(groups, team, own, n).contains(p) implies g.contains(p) && g.at(p) != Color(0) && ((
    g.at(p) == team) == own) && !has_liberty(g, p) by {
        let k = choose|k: int|
            0 <= k < n && is_fallen(groups[k], team, own) && #[trigger] groups[k].points@.contains(p);
        lemma_group_member(g, groups[k], p);
    }
    assert forall|p: Point, own: bool|
        g.contains(p) && g.at(p) != Color(0) && ((g.at(p) == team) == own) && !has_liberty(
            g,
            p,
        ) implies #[trigger] fallen(groups, team, own, n).contains(p) by {
        let k = choose|k: int| 0 <= k < n && #[trigger] groups[k].points@.contains(p);
        lemma_group_member(g, groups[k], p);
    }
    assert(fallen(groups, team, false, n) =~= dead_opponents(g, team)) by {
        assert forall|p: Point| dead_opponents(g, team).contains(p) implies fallen(
            groups,
            team,
            false,
            n,
        ).contains(p) by {}
    }
    assert(fallen(groups, team, true, n) =~= dead_own(g, team)) by {
        assert forall|p: Point| dead_own(g, team).contains(p) implies fallen(
            groups,
            team,
            true,
            n,
        ).contains(p) by {}
    }
}

/// A point of a group is not among the fallen points of the groups before it.
pub proof fn lemma_fallen_apart(
    g: Grid<Color>,
    groups: Seq<Group>,
    team: Color,
    own: bool,
    j: int,
    p: Point,
)
    requires
        lists_groups(g, groups),
        0 <= j < groups.len(),
        groups[j].points@.contains(p),
    ensures
        !fallen(groups, team, own, j).contains(p),
{
    if fallen(groups, team, own, j).contains(p) {
        let k = choose|k: int|
            0 <= k < j && is_fallen(groups[k], team, own) && #[trigger] groups[k].points@.contains(p);
        assert(!(groups[k].points@.contains(p) && groups[j].points@.contains(p)));
    }
}

/// Takes the stones of a group off the board, counting them.
fn remove_stones(
    board: &mut Board<Color>,
    points: &GroupVec,
    captures: &mut usize,
    Ghost(base): Ghost<Grid<Color>>,
    Ghost(gone): Ghost<Set<Point>>,
)
    requires
        old(board).wf(),
        base.wf(),
        old(board)@ == base.blank(gone, Color(0)),
        points@.no_duplicates(),
        forall|i: int|
            0 <= i < points@.len() ==> base.contains(#[trigger] points@[i]) && base.at(points@[i])
                != Color(0) && !gone.contains(points@[i]),
        *old(captures) + stones(old(board)@) == stones(base),
    ensures
        final(board).wf(),
        final(board)@ == base.blank(gone.union(points@.to_set()), Color(0)),
        *final(captures) + stones(final(board)@) == stones(base),
{
    let n = points.len();
    let mut m: usize = 0;
    proof {
        assert(points@.subrange(0, 0).to_set() =~= Set::empty());
        assert(gone.union(Set::empty()) =~= gone);
    }
    while m < n
        invariant
            m <= n,
            n == points@.len(),
            board.wf(),
            base.wf(),
            points@.no_duplicates(),
            forall|i: int|
                0 <= i < points@.len() ==> base.contains(#[trigger] points@[i]) && base.at(
                    points@[i],
                ) != Color(0) && !gone.contains(points@[i]),
            board@ == base.blank(gone.union(points@.subrange(0, m as int).to_set()), Color(0)),
            *captures + stones(board@) == stones(base),
        decreases n - m,
    {
        let p = points.get(m);
        proof {
            let done = points@.subrange(0, m as int);
            let s = gone.union(done.to_set());
            base.lemma_blank(s, Color(0));
            assert(!done.contains(p)) by {
                if done.contains(p) {
                    let i = choose|i: int| 0 <= i < done.len() && done[i] == p;
                    assert(points@[i] == points@[m as int]);
                }
            }
            assert(base.contains(points@[m as int]));
            assert(board@.at(p) == base.at(p));
            lemma_stone_removed(board@, p);
            lemma_count_bound(base.cells);
            base.lemma_blank_with(s, Color(0), p);
            assert(points@.subrange(0, m + 1) =~= done.push(p));
            done.lemma_push_to_set_commute(p);
            assert(s.insert(p) =~= gone.union(points@.subrange(0, m + 1).to_set()));
            assert(board.points@.len() == board.points.len());
        }
        board.set_point(p, Color::empty());
        *captures = *captures + 1;
        m += 1;
    }
    proof {
        assert(points@.subrange(0, n as int) =~= points@);
    }
}

/// Whether every neighbour of `p` on the board holds a stone of `team`.
fn surrounded(board: &Board<Color>, p: Point, team: Color) -> (r: bool)
    requires
        board.wf(),
        board@.contains(p),
    ensures
        r == forall|q: Point| board@.contains(q) && #[trigger] adjacent(p, q) ==> board@.at(q) == team,
{
    let nbrs = board.surrounding_points(p);
    proof {
        board@.lemma_neighbors(p);
    }
    let mut i: usize = 0;
    while i < nbrs.len()
        invariant
            board.wf(),
            i <= nbrs@.len(),
            forall|q: Point|
                #![trigger nbrs@.contains(q)]
                nbrs@.contains(q) <==> (board@.contains(q) && adjacent(p, q)),
            forall|k: int| 0 <= k < i ==> board@.at(#[trigger] nbrs@[k]) == team,
        decreases nbrs@.len() - i,
    {
        let q = nbrs[i];
        assert(nbrs@.contains(q));
        if board.get_point(q).0 != team.0 {
            assert(adjacent(p, q));
            return false;
        }
        i += 1;
    }
    proof {
        assert forall|q: Point| board@.contains(q) && #[trigger] adjacent(p, q) implies board@.at(q)
            == team by {
            assert(nbrs@.contains(q));
            let k = choose|k: int| 0 <= k < nbrs@.len() && nbrs@[k] == q;
            assert(board@.at(nbrs@[k]) == team);
        }
    }
    true
}

/// The position in the board of the first point of group `j`, or the number of cells where
/// there is no such group.
pub open spec fn seed_bound(g: Grid<Color>, groups: Seq<Group>, j: int) -> int {
    if j < groups.len() {
        g.index(groups[j].points@[0])
    } else {
        g.cells.len() as int
    }
}

/// The points after the bonus was scored for the lone stones captured among the first
/// `upto` cells.
pub open spec fn scored(
    g: Grid<Color>,
    points: Seq<i32>,
    bonus: Option<i32>,
    team: Color,
    upto: int,
) -> Seq<i32> {
    match bonus {
        Some(k) => points.update(
            team.0 - 1,
            add_times(points[team.0 - 1], k, ponnuki_count(g, team, upto as nat)),
        ),
        None => points,
    }
}

/// Between the first point of one group and that of the next, or the end of the board, no
/// cell holds a lone stone that the team surrounds.
proof fn lemma_seed_gap(g: Grid<Color>, groups: Seq<Group>, team: Color, j: int)
    requires
        g.wf(),
        team != Color(0),
        lists_groups(g, groups),
        0 <= j < groups.len(),
    ensures
        0 <= seed_bound(g, groups, j) < seed_bound(g, groups, j + 1) <= g.cells.len(),
        g.point(seed_bound(g, groups, j)) == groups[j].points@[0],
        ponnuki_count(g, team, seed_bound(g, groups, j + 1) as nat) == ponnuki_count(
            g,
            team,
            (seed_bound(g, groups, j) + 1) as nat,
        ),
{
    let a = seed_bound(g, groups, j);
    let b = seed_bound(g, groups, j + 1);
    assert(groups[j].describes(g));
    g.lemma_index(groups[j].points@[0]);
    if j + 1 < groups.len() {
        assert(groups[j + 1].describes(g));
        g.lemma_index(groups[j + 1].points@[0]);
    }
    assert forall|i: int| a + 1 <= i < b implies !ponnuki(g, team, #[trigger] g.point(i)) by {
        let q = g.point(i);
        g.lemma_point(i);
        if ponnuki(g, team, q) {
            let k = choose|k: int|
                0 <= k < groups.len() && #[trigger] groups[k].points@.contains(q);
            assert(groups[k].describes(g));
            lemma_ponnuki_group(g, team, groups[k]);
            assert(q == groups[k].points@[0]);
            if k < j {
                assert(g.index(groups[k].points@[0]) < g.index(groups[j].points@[0]));
            } else if k > j {
                if k > j + 1 {
                    assert(g.index(groups[j + 1].points@[0]) < g.index(groups[k].points@[0]));
                }
            }
        }
    }
    lemma_ponnuki_gap(g, team, (a + 1) as nat, b as nat);
}

/// Before the first point of the first group, or on a board without groups, no cell holds
/// a stone.
proof fn lemma_seed_start(g: Grid<Color>, groups: Seq<Group>, team: Color)
    requires
        g.wf(),
        team != Color(0),
        lists_groups(g, groups),
    ensures
        ponnuki_count(g, team, seed_bound(g, groups, 0) as nat) == 0,
        0 <= seed_bound(g, groups, 0),
{
    let b = seed_bound(g, groups, 0);
    if 0 < groups.len() {
        assert(groups[0].describes(g));
        g.lemma_index(groups[0].points@[0]);
    }
    assert forall|i: int| 0 <= i < b implies !ponnuki(g, team, #[trigger] g.point(i)) by {
        let q = g.point(i);
        g.lemma_point(i);
        if ponnuki(g, team, q) {
            let k = choose|k: int|
                0 <= k < groups.len() && #[trigger] groups[k].points@.contains(q);
            assert(groups[k].describes(g));
            lemma_ponnuki_group(g, team, groups[k]);
            if k > 0 {
                assert(g.index(groups[0].points@[0]) < g.index(groups[k].points@[0]));
            }
        }
    }
    lemma_ponnuki_gap(g, team, 0, b as nat);
}

/// Takes every group of another team than `team` that has no liberty off the board.
///
/// Returns the number of stones taken, and whether a hidden cell was made visible.
pub fn capture_opponents(
    board: &mut Board<Color>,
    visibility: &mut Option<VisibilityBoard>,
    points: &mut Vec<i32>,
    bonus: Option<i32>,
    team: Color,
) -> (r: (usize, bool))
    requires
        old(board).wf(),
        *old(visibility) matches Some(v) ==> v.wf() && v@.same_shape(old(board)@),
        1 <= team.0 <= old(points)@.len(),
    ensures
        final(board).wf(),
        final(board)@ == old(board)@.blank(dead_opponents(old(board)@, team), Color(0)),
        *final(visibility) matches Some(v) ==> v.wf() && v@.same_shape(old(board)@),
        visibility_view(*final(visibility)) == uncovered(
            visibility_view(*old(visibility)),
            touched(old(board)@, dead_opponents(old(board)@, team)),
        ),
        final(points)@ == scored(
            old(board)@,
            old(points)@,
            bonus,
            team,
            old(board)@.cells.len() as int,
        ),
        r.0 + stones(final(board)@) == stones(old(board)@),
        r.1 == hides(
            visibility_view(*old(visibility)),
            touched(old(board)@, dead_opponents(old(board)@, team)),
        ),
{
    let ghost g = board@;
    let ghost v0 = visibility_view(*visibility);
    let ghost p0 = points@;
    let groups = find_groups(board);
    let mut captures: usize = 0;
    let mut revealed = false;
    let mut j: usize = 0;
    proof {
        g.lemma_blank_nothing(Color(0));
        assert(fallen(groups@, team, false, 0) =~= Set::empty());
        assert(touched(g, Set::empty()) =~= Set::empty());
        lemma_uncover_nothing(v0);
        lemma_seed_start(g, groups@, team);
        if bonus is Some {
            assert(p0.update(team.0 - 1, p0[team.0 - 1]) =~= p0);
        }
    }
    while j < groups.len()
        invariant
            j <= groups@.len(),
            g.wf(),
            board.wf(),
            team != Color(0),
            1 <= team.0 <= p0.len(),
            lists_groups(g, groups@),
            v0 matches Some(v) ==> v.wf() && v.same_shape(g),
            *visibility matches Some(v) ==> v.wf() && v@.same_shape(g),
            board@ == g.blank(fallen(groups@, team, false, j as int), Color(0)),
            captures + stones(board@) == stones(g),
            visibility_view(*visibility) == uncovered(
                v0,
                touched(g, fallen(groups@, team, false, j as int)),
            ),
            revealed == hides(v0, touched(g, fallen(groups@, team, false, j as int))),
            points@ == scored(g, p0, bonus, team, seed_bound(g, groups@, j as int)),
            0 <= seed_bound(g, groups@, j as int),
        decreases groups@.len() - j,
    {
        let group = &groups[j];
        let ghost f0 = fallen(groups@, team, false, j as int);
        let ghost f1 = fallen(groups@, team, false, j + 1);
        let ghost pts = group.points@.to_set();
        let ghost seed = group.points@[0];
        proof {
            assert(group.describes(g));
            lemma_fallen_step(groups@, team, false, j as int);
            lemma_seed_gap(g, groups@, team, j as int);
            lemma_ponnuki_group(g, team, *group);
            g.lemma_blank(f0, Color(0));
            g.lemma_blank(f1, Color(0));
            assert forall|i: int| 0 <= i < group.points@.len() implies g.contains(
                #[trigger] group.points@[i],
            ) && g.at(group.points@[i]) == group.team && !f0.contains(group.points@[i]) by {
                assert(group.points@.contains(group.points@[i]));
                lemma_group_member(g, *group, group.points@[i]);
                lemma_fallen_apart(g, groups@, team, false, j as int, group.points@[i]);
            }
        }
        let mut lone = false;
        if group.liberties == 0 && group.team.0 != team.0 {
            remove_stones(board, &group.points, &mut captures, Ghost(g), Ghost(f0));
            let shown = reveal_group(visibility, group, board);
            proof {
                lemma_uncover_step(v0, touched(g, f0), touched(g, pts));
                lemma_touched_union(g, f0, pts);
                assert(touched(board@, pts) =~= touched(g, pts));
            }
            revealed = revealed || shown;
            if group.points.len() == 1 {
                lone = surrounded(board, group.points.get(0), team);
            }
            proof {
                assert(lone == ponnuki(g, team, seed)) by {
                    assert forall|q: Point| g.contains(q) && #[trigger] adjacent(seed, q) implies (
                    board@.at(q) == team <==> g.at(q) == team) by {
                        assert(board@.contains(q));
                        if f1.contains(q) {
                            let k = choose|k: int|
                                0 <= k < j + 1 && is_fallen(groups@[k], team, false)
                                    && #[trigger] groups@[k].points@.contains(q);
                            lemma_group_member(g, groups@[k], q);
                        }
                    }
                    if lone {
                        assert forall|q: Point| g.contains(q) && #[trigger] adjacent(
                            seed,
                            q,
                        ) implies g.at(q) == team by {
                            assert(board@.contains(q));
                        }
                    }
                }
            }
        } else {
            proof {
                assert(f1 =~= f0);
                assert(!ponnuki(g, team, seed));
            }
        }
        if lone {
            match bonus {
                Some(k) => {
                    let t = (team.0 - 1) as usize;
                    let v = points[t].wrapping_add(k);
                    points.set(t, v);
                },
                None => {},
            }
        }
        proof {
            let a = seed_bound(g, groups@, j as int);
            assert(g.point(a) == seed);
            match bonus {
                Some(k) => {
                    let before = add_times(p0[team.0 - 1], k, ponnuki_count(g, team, a as nat));
                    assert(p0.update(team.0 - 1, before)[team.0 - 1] == before);
                    assert(points@ =~= scored(g, p0, bonus, team, seed_bound(g, groups@, j + 1)));
                },
                None => {},
            }
        }
        j += 1;
    }
    proof {
        lemma_fallen_all(g, groups@, team);
    }
    (captures, revealed)
}

/// Taking `p` out of the points kept so far keeps the points outside a set with `p` in it.
proof fn lemma_outside_remove(played: Seq<Point>, s: Set<Point>, p: Point)
    ensures
        played.filter(outside(s)).filter(other_than(p)) == played.filter(outside(s.insert(p))),
{
    lemma_filter_twice(played, outside(s), other_than(p));
    lemma_filter_agree(
        played,
        |x: Point| outside(s)(x) && other_than(p)(x),
        outside(s.insert(p)),
    );
}

/// A point that is not among the points kept changes nothing when it joins the set.
proof fn lemma_outside_skip(played: Seq<Point>, s: Set<Point>, p: Point)
    requires
        !played.filter(outside(s)).contains(p),
    ensures
        played.filter(outside(s)) == played.filter(outside(s.insert(p))),
        s.insert(p).intersect(played.to_set()) == s.intersect(played.to_set()),
{
    crate::point_list::lemma_filter_holds(played, outside(s), p);
    lemma_filter_agree(played, outside(s), outside(s.insert(p)));
    assert(s.insert(p).intersect(played.to_set()) =~= s.intersect(played.to_set()));
}

/// Takes off the board the points played that belong to a group of `team` without a liberty.
///
/// Returns whether a hidden cell was made visible.
pub fn capture_own(
    board: &mut Board<Color>,
    visibility: &mut Option<VisibilityBoard>,
    team: Color,
    points_played: &mut GroupVec,
) -> (revealed: bool)
    requires
        old(board).wf(),
        *old(visibility) matches Some(v) ==> v.wf() && v@.same_shape(old(board)@),
        team != Color(0),
    ensures
        final(board).wf(),
        final(board)@ == old(board)@.blank(
            dead_own(old(board)@, team).intersect(old(points_played)@.to_set()),
            Color(0),
        ),
        *final(visibility) matches Some(v) ==> v.wf() && v@.same_shape(old(board)@),
        visibility_view(*final(visibility)) == uncovered(
            visibility_view(*old(visibility)),
            touched(old(board)@, dead_own(old(board)@, team)),
        ),
        final(points_played)@ == old(points_played)@.filter(outside(dead_own(old(board)@, team))),
        revealed == hides(
            visibility_view(*old(visibility)),
            touched(old(board)@, dead_own(old(board)@, team)),
        ),
{
    let ghost g = board@;
    let ghost v0 = visibility_view(*visibility);
    let ghost played0 = points_played@;
    let ghost pset = played0.to_set();
    let groups = find_groups(board);
    let mut revealed = false;
    let mut j: usize = 0;
    proof {
        g.lemma_blank_nothing(Color(0));
        assert(fallen(groups@, team, true, 0) =~= Set::empty());
        assert(Set::<Point>::empty().intersect(pset) =~= Set::empty());
        assert(touched(g, Set::empty()) =~= Set::empty());
        lemma_uncover_nothing(v0);
        lemma_filter_agree(played0, outside(Set::empty()), |x: Point| true);
        assert(played0.filter(|x: Point| true) == played0) by {
            played0.lemma_filter_len(|x: Point| true);
            lemma_filter_all(played0);
        }
    }
    while j < groups.len()
        invariant
            j <= groups@.len(),
            g.wf(),
            board.wf(),
            team != Color(0),
            pset == played0.to_set(),
            lists_groups(g, groups@),
            v0 matches Some(v) ==> v.wf() && v.same_shape(g),
            *visibility matches Some(v) ==> v.wf() && v@.same_shape(g),
            board@ == g.blank(fallen(groups@, team, true, j as int).intersect(pset), Color(0)),
            points_played@ == played0.filter(outside(fallen(groups@, team, true, j as int))),
            visibility_view(*visibility) == uncovered(
                v0,
                touched(g, fallen(groups@, team, true, j as int)),
            ),
            revealed == hides(v0, touched(g, fallen(groups@, team, true, j as int))),
        decreases groups@.len() - j,
    {
        let group = &groups[j];
        let ghost f0 = fallen(groups@, team, true, j as int);
        let ghost f1 = fallen(groups@, team, true, j + 1);
        let ghost pts = group.points@.to_set();
        proof {
            assert(group.describes(g));
            lemma_fallen_step(groups@, team, true, j as int);
            assert forall|i: int| 0 <= i < group.points@.len() implies g.contains(
                #[trigger] group.points@[i],
            ) by {
                assert(group.points@.contains(group.points@[i]));
                lemma_group_member(g, *group, group.points@[i]);
            }
        }
        if group.liberties == 0 && group.team.0 == team.0 {
            let n = group.points.len();
            let mut m: usize = 0;
            proof {
                assert(group.points@.subrange(0, 0).to_set() =~= Set::empty());
                assert(f0.union(Set::empty()) =~= f0);
            }
            while m < n
                invariant
                    m <= n,
                    n == group.points@.len(),
                    g.wf(),
                    board.wf(),
                    pset == played0.to_set(),
                    forall|i: int|
                        0 <= i < group.points@.len() ==> g.contains(#[trigger] group.points@[i]),
                    board@ == g.blank(
                        f0.union(group.points@.subrange(0, m as int).to_set()).intersect(pset),
                        Color(0),
                    ),
                    points_played@ == played0.filter(
                        outside(f0.union(group.points@.subrange(0, m as int).to_set())),
                    ),
                decreases n - m,
            {
                let p = group.points.get(m);
                let ghost done = group.points@.subrange(0, m as int);
                let ghost s = f0.union(done.to_set());
                proof {
                    assert(group.points@.subrange(0, m + 1) =~= done.push(p));
                    done.lemma_push_to_set_commute(p);
                    assert(f0.union(group.points@.subrange(0, m + 1).to_set()) =~= s.insert(p));
                    g.lemma_blank(s.intersect(pset), Color(0));
                }
                if points_played.contains(p) {
                    points_played.remove_all(p);
                    board.set_point(p, Color::empty());
                    proof {
                        lemma_outside_remove(played0, s, p);
                        crate::point_list::lemma_filter_holds(played0, outside(s), p);
                        g.lemma_blank_with(s.intersect(pset), Color(0), p);
                        assert(s.intersect(pset).insert(p) =~= s.insert(p).intersect(pset));
                    }
                } else {
                    proof {
                        lemma_outside_skip(played0, s, p);
                    }
                }
                m += 1;
            }
            proof {
                assert(group.points@.subrange(0, n as int) =~= group.points@);
            }
            let shown = reveal_group(visibility, group, board);
            proof {
                lemma_uncover_step(v0, touched(g, f0), touched(g, pts));
                lemma_touched_union(g, f0, pts);
                g.lemma_blank(f1.intersect(pset), Color(0));
                assert(touched(board@, pts) =~= touched(g, pts));
            }
            revealed = revealed || shown;
        } else {
            proof {
                assert(f1 =~= f0);
            }
        }
        j += 1;
    }
    proof {
        lemma_fallen_all(g, groups@, team);
    }
    revealed
}

/// A filter that every item passes keeps the list as it is.
proof fn lemma_filter_all(s: Seq<Point>)
    ensures
        s.filter(|x: Point| true) == s,
    decreases s.len(),
{
    reveal(Seq::filter);
    if s.len() > 0 {
        lemma_filter_all(s.drop_last());
        assert(s.drop_last().push(s.last()) =~= s);
    }
}

} // verus!
