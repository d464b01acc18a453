//! Groups of stones and their liberties.

use vstd::prelude::*;
use crate::board::{adjacent, Board, Color, Grid};
use crate::point_list::{
    lemma_push_contains, list_get, list_len, list_new, list_push, GroupVec, Point,
};

verus! {

/// A walk over cells of one colour: every cell is on the board and has the colour of the
/// first, and each cell is adjacent to the next.
pub open spec fn is_chain(g: Grid<Color>, path: Seq<Point>) -> bool {
    &&& path.len() > 0
    &&& forall|i: int|
        0 <= i < path.len() ==> g.contains(#[trigger] path[i]) && g.at(path[i]) == g.at(path[0])
    &&& forall|i: int|
        #![trigger path[i]] 0 <= i < path.len() - 1 ==> adjacent(path[i], path[i + 1])
}

/// Whether a walk over cells of one colour leads from `p` to `q`.
pub open spec fn connected(g: Grid<Color>, p: Point, q: Point) -> bool {
    exists|path: Seq<Point>| #[trigger] is_chain(g, path) && path[0] == p && path.last() == q
}

/// The cells connected to `p`: the group of the stone at `p`.
pub open spec fn group_of(g: Grid<Color>, p: Point) -> Set<Point> {
    Set::new(|q: Point| connected(g, p, q))
}

/// The liberties of a set of cells: the empty cells on the board adjacent to one of them.
pub open spec fn liberties_of(g: Grid<Color>, s: Set<Point>) -> Set<Point> {
    Set::new(
        |e: Point|
            g.contains(e) && g.at(e) == Color(0) && exists|q: Point|
                s.contains(q) && #[trigger] adjacent(q, e),
    )
}

/// Whether the group of the stone at `p` has a liberty.
pub open spec fn has_liberty(g: Grid<Color>, p: Point) -> bool {
    exists|q: Point, e: Point|
        connected(g, p, q) && g.contains(e) && g.at(e) == Color(0) && #[trigger] adjacent(q, e)
}

/// Whether every neighbour of a cell of `s` that has that cell's colour is in `s` too.
pub open spec fn closed_under(g: Grid<Color>, s: Set<Point>) -> bool {
    forall|p: Point, q: Point|
        s.contains(p) && g.contains(q) && #[trigger] adjacent(p, q) && g.at(q) == g.at(p)
            ==> s.contains(q)
}

/// A cell on the board is connected to itself.
pub proof fn lemma_connected_self(g: Grid<Color>, p: Point)
    requires
        g.contains(p),
    ensures
        connected(g, p, p),
{
    let path = seq![p];
    assert(is_chain(g, path));
    assert(path[0] == p && path.last() == p);
}

/// A walk can be extended by a neighbour of its last cell that has the same colour.
pub proof fn lemma_connected_step(g: Grid<Color>, a: Point, b: Point, c: Point)
    requires
        connected(g, a, b),
        g.contains(c),
        adjacent(b, c),
        g.at(c) == g.at(b),
    ensures
        connected(g, a, c),
{
    let path = choose|path: Seq<Point>|
        #[trigger] is_chain(g, path) && path[0] == a && path.last() == b;
    let longer = path.push(c);
    assert forall|i: int| 0 <= i < longer.len() implies g.contains(#[trigger] longer[i]) && g.at(
        longer[i],
    ) == g.at(longer[0]) by {
        if i < path.len() {
            assert(longer[i] == path[i]);
        }
    }
    assert forall|i: int| #![trigger longer[i]] 0 <= i < longer.len() - 1 implies adjacent(
        longer[i],
        longer[i + 1],
    ) by {
        if i < path.len() - 1 {
            assert(longer[i] == path[i]);
            assert(longer[i + 1] == path[i + 1]);
        }
    }
    assert(is_chain(g, longer));
    assert(longer[0] == a && longer.last() == c);
}

/// Connected cells are on the board and have the same colour.
pub proof fn lemma_connected_same(g: Grid<Color>, p: Point, q: Point)
    requires
        connected(g, p, q),
    ensures
        g.contains(p),
        g.contains(q),
        g.at(p) == g.at(q),
{
    let path = choose|path: Seq<Point>|
        #[trigger] is_chain(g, path) && path[0] == p && path.last() == q;
    assert(g.contains(path[0]));
    assert(g.contains(path[path.len() - 1]));
}

/// A walk that starts inside a closed set never leaves it.
pub proof fn lemma_chain_stays(g: Grid<Color>, s: Set<Point>, path: Seq<Point>, i: int)
    requires
        is_chain(g, path),
        closed_under(g, s),
        s.contains(path[0]),
        0 <= i < path.len(),
    ensures
        s.contains(path[i]),
    decreases i,
{
    if i > 0 {
        lemma_chain_stays(g, s, path, i - 1);
        assert(adjacent(path[i - 1], path[i - 1 + 1]));
        assert(g.contains(path[i]));
        assert(g.contains(path[i - 1]));
    }
}

/// A closed set that holds `p` holds the whole group of `p`.
pub proof fn lemma_closed_holds_group(g: Grid<Color>, s: Set<Point>, p: Point, q: Point)
    requires
        closed_under(g, s),
        s.contains(p),
        connected(g, p, q),
    ensures
        s.contains(q),
{
    let path = choose|path: Seq<Point>|
        #[trigger] is_chain(g, path) && path[0] == p && path.last() == q;
    lemma_chain_stays(g, s, path, path.len() - 1);
}

/// Being connected is symmetric.
pub proof fn lemma_connected_sym(g: Grid<Color>, p: Point, q: Point)
    requires
        connected(g, p, q),
    ensures
        connected(g, q, p),
{
    let path = choose|path: Seq<Point>|
        #[trigger] is_chain(g, path) && path[0] == p && path.last() == q;
    let back = Seq::new(path.len(), |i: int| path[path.len() - 1 - i]);
    assert(g.at(path[path.len() - 1]) == g.at(path[0]));
    assert forall|i: int| #![trigger back[i]] 0 <= i < back.len() - 1 implies adjacent(
        back[i],
        back[i + 1],
    ) by {
        let j = path.len() - 2 - i;
        assert(adjacent(path[j], path[j + 1]));
    }
    assert(is_chain(g, back));
    assert(back[0] == q && back.last() == p);
}

/// Being connected is transitive.
pub proof fn lemma_connected_trans(g: Grid<Color>, p: Point, q: Point, r: Point)
    requires
        connected(g, p, q),
        connected(g, q, r),
    ensures
        connected(g, p, r),
{
    let s = group_of(g, p);
    assert(closed_under(g, s)) by {
        assert forall|a: Point, b: Point|
            s.contains(a) && g.contains(b) && #[trigger] adjacent(a, b) && g.at(b) == g.at(
                a,
            ) implies s.contains(b) by {
            lemma_connected_step(g, p, a, b);
        }
    }
    lemma_closed_holds_group(g, s, q, r);
}

/// A list of distinct points on the board is no longer than the board has cells.
pub proof fn lemma_distinct_points_bound(g: Grid<Color>, s: Seq<Point>)
    requires
        g.wf(),
        s.no_duplicates(),
        forall|i: int| 0 <= i < s.len() ==> g.contains(#[trigger] s[i]),
    ensures
        s.len() <= g.cells.len(),
{
    let idx = Seq::new(s.len(), |i: int| g.index(s[i]));
    assert(idx.no_duplicates()) by {
        assert forall|i: int, j: int|
            0 <= i < idx.len() && 0 <= j < idx.len() && i != j implies idx[i]
            != idx[j] by {
            g.lemma_index_distinct(s[i], s[j]);
        }
    }
    idx.unique_seq_to_set();
    let range = vstd::set_lib::set_int_range(0, g.cells.len() as int);
    vstd::set_lib::lemma_int_range(0, g.cells.len() as int);
    assert(idx.to_set().subset_of(range)) by {
        assert forall|v: int| idx.to_set().contains(v) implies range.contains(v) by {
            let i = choose|i: int| 0 <= i < idx.len() && idx[i] == v;
            g.lemma_index(s[i]);
        }
    }
    vstd::set_lib::lemma_len_subset(idx.to_set(), range);
}

/// A group of stones: its team, its points and the number of its liberties.
pub struct Group {
    pub points: GroupVec,
    pub liberties: usize,
    pub team: Color,
}

impl Group {
    /// Whether this is a group of the board `g`: its points are, each once, the cells
    /// connected to its first point; its team is their colour; and `liberties` counts the
    /// distinct empty cells adjacent to any of them.
    pub open spec fn describes(&self, g: Grid<Color>) -> bool {
        &&& self.points@.len() > 0
        &&& self.points@.no_duplicates()
        &&& g.contains(self.points@[0])
        &&& self.team == g.at(self.points@[0])
        &&& self.team != Color(0)
        &&& self.points@.to_set() == group_of(g, self.points@[0])
        &&& liberties_of(g, self.points@.to_set()).finite()
        &&& self.liberties == liberties_of(g, self.points@.to_set()).len()
    }
}

/// The points whose cells are marked in `v`.
pub open spec fn marked(g: Grid<Color>, v: Seq<bool>) -> Set<Point> {
    Set::new(|p: Point| g.contains(p) && v[g.index(p)])
}

spec fn flood_state(
    g: Grid<Color>,
    seed: Point,
    stamp: usize,
    v0: Seq<bool>,
    pts: Seq<Point>,
    visited: Seq<bool>,
    marks: Seq<usize>,
    libs: Seq<Point>,
) -> bool {
    &&& g.wf()
    &&& visited.len() == g.cells.len()
    &&& marks.len() == g.cells.len()
    &&& v0.len() == g.cells.len()
    &&& pts.len() > 0
    &&& pts[0] == seed
    &&& pts.no_duplicates()
    &&& forall|j: int|
        0 <= j < pts.len() ==> g.contains(#[trigger] pts[j]) && g.at(pts[j]) == g.at(seed)
            && connected(g, seed, pts[j]) && !v0[g.index(pts[j])]
    &&& forall|p: Point|
        g.contains(p) ==> #[trigger] visited[g.index(p)] == (v0[g.index(p)] || pts.contains(p))
    &&& libs.no_duplicates()
    &&& forall|i: int|
        0 <= i < libs.len() ==> liberties_of(g, pts.to_set()).contains(#[trigger] libs[i])
    &&& forall|e: Point|
        g.contains(e) ==> ((#[trigger] marks[g.index(e)] == stamp) <==> libs.contains(e))
    &&& forall|i: int| 0 <= i < marks.len() ==> #[trigger] marks[i] <= stamp
}

/// Whether the neighbour `q` of a point of the group has been dealt with: it is in the group
/// if it has the group's colour, and among the liberties if it is empty.
spec fn handled(g: Grid<Color>, seed: Point, pts: Seq<Point>, libs: Seq<Point>, q: Point) -> bool {
    &&& g.at(q) == g.at(seed) ==> pts.contains(q)
    &&& g.at(q) == Color(0) ==> libs.contains(q)
}

/// Deals with the neighbour `q` of the point at position `k` of the group that is being
/// collected: a stone of the group's colour joins the group, an empty cell is counted as
/// a liberty, each once.
fn visit(
    board: &Board<Color>,
    team: Color,
    q: Point,
    pts: &mut GroupVec,
    visited: &mut Vec<bool>,
    marks: &mut Vec<usize>,
    stamp: usize,
    liberties: &mut usize,
    Ghost(seed): Ghost<Point>,
    Ghost(v0): Ghost<Seq<bool>>,
    Ghost(libs): Ghost<Seq<Point>>,
    Ghost(k): Ghost<int>,
) -> (out: Ghost<Seq<Point>>)
    requires
        board.wf(),
        team == board@.at(seed),
        team != Color(0),
        flood_state(board@, seed, stamp, v0, old(pts)@, old(visited)@, old(marks)@, libs),
        closed_under(board@, marked(board@, v0)),
        0 <= k < old(pts)@.len(),
        board@.contains(q),
        adjacent(old(pts)@[k], q),
        *old(liberties) == libs.len(),
    ensures
        flood_state(board@, seed, stamp, v0, final(pts)@, final(visited)@, final(marks)@, out@),
        final(pts)@ == old(pts)@ || final(pts)@ == old(pts)@.push(q),
        out@ == libs || out@ == libs.push(q),
        handled(board@, seed, final(pts)@, out@, q),
        *final(liberties) == out@.len(),
{
    let ghost g = board@;
    let ghost pts0 = pts@;
    let ghost p = pts@[k];
    let qi = board.offset(q);
    let c = board.get_point(q);
    let ghost mut libs1 = libs;
    proof {
        g.lemma_index(q);
        assert(g.contains(pts@[k]));
        assert(visited@[g.index(q)] == (v0[g.index(q)] || pts@.contains(q)));
        assert((marks@[g.index(q)] == stamp) <==> libs.contains(q));
    }
    if c.0 == team.0 {
        if !visited[qi] {
            list_push(pts, q);
            visited.set(qi, true);
            proof {
                lemma_connected_step(g, seed, p, q);
                assert forall|r: Point|
                    g.contains(r) implies #[trigger] visited@[g.index(r)] == (v0[g.index(
                    r,
                )] || pts@.contains(r)) by {
                    lemma_push_contains(pts0, q, r);
                    g.lemma_index(r);
                    if r != q {
                        g.lemma_index_distinct(r, q);
                        assert(old(visited)@[g.index(r)] == (v0[g.index(r)] || pts0.contains(r)));
                    }
                }
                assert forall|j: int|
                    0 <= j < pts@.len() implies g.contains(#[trigger] pts@[j]) && g.at(
                    pts@[j],
                ) == g.at(seed) && connected(g, seed, pts@[j]) && !v0[g.index(pts@[j])] by {
                    if j < pts0.len() {
                        assert(pts@[j] == pts0[j]);
                    }
                }
                assert forall|i: int| 0 <= i < libs.len() implies liberties_of(
                    g,
                    pts@.to_set(),
                ).contains(#[trigger] libs[i]) by {
                    let e = libs[i];
                    assert(liberties_of(g, pts0.to_set()).contains(e));
                    let r = choose|r: Point| pts0.to_set().contains(r) && #[trigger] adjacent(r, e);
                    lemma_push_contains(pts0, q, r);
                    assert(pts@.to_set().contains(r));
                }
                assert(pts@[0] == pts0[0]);
                lemma_push_contains(pts0, q, q);
            }
        } else {
            proof {
                if v0[g.index(q)] {
                    assert(marked(g, v0).contains(q));
                    assert(adjacent(q, p));
                    assert(g.at(p) == g.at(q));
                    assert(marked(g, v0).contains(p));
                    assert(false);
                }
            }
        }
    } else if c.0 == 0 {
        if marks[qi] != stamp {
            proof {
                libs1 = libs.push(q);
                assert(libs1.no_duplicates());
                assert forall|i: int|
                    0 <= i < libs1.len() implies g.contains(#[trigger] libs1[i]) by {
                    if i < libs.len() {
                        assert(liberties_of(g, pts@.to_set()).contains(libs[i]));
                    }
                }
                lemma_distinct_points_bound(g, libs1);
                assert(board.points@.len() == board.points.len());
            }
            marks.set(qi, stamp);
            *liberties = *liberties + 1;
            proof {
                assert forall|e: Point|
                    g.contains(e) implies ((#[trigger] marks@[g.index(e)] == stamp)
                    <==> libs1.contains(e)) by {
                    lemma_push_contains(libs, q, e);
                    g.lemma_index(e);
                    if e != q {
                        g.lemma_index_distinct(e, q);
                        assert((old(marks)@[g.index(e)] == stamp) <==> libs.contains(e));
                    }
                }
                assert forall|i: int| 0 <= i < libs1.len() implies liberties_of(
                    g,
                    pts@.to_set(),
                ).contains(#[trigger] libs1[i]) by {
                    if i < libs.len() {
                        assert(libs1[i] == libs[i]);
                    } else {
                        assert(pts@.to_set().contains(p));
                        assert(adjacent(p, q));
                    }
                }
                lemma_push_contains(libs, q, q);
            }
        }
    }
    Ghost(libs1)
}

/// Collects the group of the stone at `seed`, which no earlier group holds.
fn flood(
    board: &Board<Color>,
    seed: Point,
    visited: &mut Vec<bool>,
    marks: &mut Vec<usize>,
    stamp: usize,
) -> (group: Group)
    requires
        board.wf(),
        board@.contains(seed),
        board@.at(seed) != Color(0),
        old(visited)@.len() == board@.cells.len(),
        old(marks)@.len() == board@.cells.len(),
        !old(visited)@[board@.index(seed)],
        closed_under(board@, marked(board@, old(visited)@)),
        forall|i: int| 0 <= i < old(marks)@.len() ==> #[trigger] old(marks)@[i] < stamp,
    ensures
        group.describes(board@),
        group.points@[0] == seed,
        final(visited)@.len() == board@.cells.len(),
        final(marks)@.len() == board@.cells.len(),
        forall|p: Point|
            board@.contains(p) ==> #[trigger] final(visited)@[board@.index(p)] == (old(
                visited,
            )@[board@.index(p)] || group.points@.contains(p)),
        forall|j: int|
            0 <= j < group.points@.len() ==> !old(visited)@[board@.index(#[trigger] group.points@[j])],
        closed_under(board@, marked(board@, final(visited)@)),
        forall|i: int| 0 <= i < final(marks)@.len() ==> #[trigger] final(marks)@[i] <= stamp,
{
    let ghost g = board@;
    let ghost v0 = visited@;
    let team = board.get_point(seed);
    let mut pts = list_new();
    list_push(&mut pts, seed);
    let si = board.offset(seed);
    visited.set(si, true);
    let mut liberties: usize = 0;
    let ghost mut libs: Seq<Point> = Seq::empty();
    let mut k: usize = 0;
    proof {
        lemma_connected_self(g, seed);
        assert(pts@ =~= seq![seed]);
        g.lemma_index(seed);
        assert forall|p: Point|
            g.contains(p) implies #[trigger] visited@[g.index(p)] == (v0[g.index(
            p,
        )] || pts@.contains(p)) by {
            g.lemma_index(p);
            if p != seed {
                g.lemma_index_distinct(p, seed);
            } else {
                assert(pts@[0] == seed);
            }
        }
        assert forall|e: Point| g.contains(e) implies ((#[trigger] marks@[g.index(e)] == stamp)
            <==> libs.contains(e)) by {
            g.lemma_index(e);
        }
        assert(flood_state(g, seed, stamp, v0, pts@, visited@, marks@, libs));
    }
    while k < list_len(&pts)
        invariant
            g == board@,
            board.wf(),
            team == g.at(seed),
            team != Color(0),
            k <= pts@.len(),
            liberties == libs.len(),
            flood_state(g, seed, stamp, v0, pts@, visited@, marks@, libs),
            closed_under(g, marked(g, v0)),
            forall|j: int, q: Point|
                0 <= j < k && g.contains(q) && #[trigger] adjacent(pts@[j], q) ==> handled(
                    g,
                    seed,
                    pts@,
                    libs,
                    q,
                ),
        decreases g.cells.len() - k,
    {
        proof {
            lemma_distinct_points_bound(g, pts@);
        }
        let p = list_get(&pts, k);
        let nbrs = board.surrounding_points(p);
        proof {
            g.lemma_neighbors(p);
        }
        let mut m: usize = 0;
        while m < nbrs.len()
            invariant
                g == board@,
                board.wf(),
                team == g.at(seed),
                team != Color(0),
                k < pts@.len(),
                p == pts@[k as int],
                m <= nbrs@.len(),
                forall|q: Point| nbrs@.contains(q) <==> (g.contains(q) && adjacent(p, q)),
                liberties == libs.len(),
                flood_state(g, seed, stamp, v0, pts@, visited@, marks@, libs),
                closed_under(g, marked(g, v0)),
                forall|j: int, q: Point|
                    0 <= j < k && g.contains(q) && #[trigger] adjacent(pts@[j], q) ==> handled(
                        g,
                        seed,
                        pts@,
                        libs,
                        q,
                    ),
                forall|i: int| 0 <= i < m ==> handled(g, seed, pts@, libs, #[trigger] nbrs@[i]),
            decreases nbrs@.len() - m,
        {
            let q = nbrs[m];
            assert(nbrs@.contains(q));
            let ghost pts0 = pts@;
            let ghost libs0 = libs;
            let out = visit(
                board,
                team,
                q,
                &mut pts,
                visited,
                marks,
                stamp,
                &mut liberties,
                Ghost(seed),
                Ghost(v0),
                Ghost(libs),
                Ghost(k as int),
            );
            proof {
                libs = out@;
                assert forall|r: Point| pts0.contains(r) implies pts@.contains(r) by {
                    lemma_push_contains(pts0, q, r);
                }
                assert forall|r: Point| libs0.contains(r) implies libs.contains(r) by {
                    lemma_push_contains(libs0, q, r);
                }
                assert forall|j: int| 0 <= j < pts0.len() implies pts@[j] == pts0[j] by {}
                assert forall|j: int, r: Point|
                    0 <= j < k && g.contains(r) && #[trigger] adjacent(pts@[j], r) implies handled(
                    g,
                    seed,
                    pts@,
                    libs,
                    r,
                ) by {
                    assert(pts@[j] == pts0[j]);
                    assert(handled(g, seed, pts0, libs0, r));
                }
                assert forall|i: int| 0 <= i < m + 1 implies handled(
                    g,
                    seed,
                    pts@,
                    libs,
                    #[trigger] nbrs@[i],
                ) by {
                    if i < m {
                        assert(handled(g, seed, pts0, libs0, nbrs@[i]));
                    }
                }
            }
            m = m + 1;
        }
        proof {
            assert forall|j: int, q: Point|
                0 <= j < k + 1 && g.contains(q) && #[trigger] adjacent(pts@[j], q) implies handled(
                g,
                seed,
                pts@,
                libs,
                q,
            ) by {
                if j == k {
                    assert(nbrs@.contains(q));
                    let i = choose|i: int| 0 <= i < nbrs@.len() && nbrs@[i] == q;
                    assert(handled(g, seed, pts@, libs, nbrs@[i]));
                }
            }
        }
        k = k + 1;
    }
    proof {
        let s = pts@.to_set();
        assert(closed_under(g, s)) by {
            assert forall|a: Point, b: Point|
                s.contains(a) && g.contains(b) && #[trigger] adjacent(a, b) && g.at(b) == g.at(
                    a,
                ) implies s.contains(b) by {
                let j = choose|j: int| 0 <= j < pts@.len() && pts@[j] == a;
                assert(adjacent(pts@[j], b));
                assert(handled(g, seed, pts@, libs, b));
            }
        }
        assert(s =~= group_of(g, seed)) by {
            assert forall|q: Point| group_of(g, seed).contains(q) implies s.contains(q) by {
                assert(pts@[0] == seed);
                lemma_closed_holds_group(g, s, seed, q);
            }
            assert forall|q: Point| s.contains(q) implies group_of(g, seed).contains(q) by {
                let j = choose|j: int| 0 <= j < pts@.len() && pts@[j] == q;
            }
        }
        assert(libs.to_set() =~= liberties_of(g, s)) by {
            assert forall|e: Point| liberties_of(g, s).contains(e) implies libs.to_set().contains(
                e,
            ) by {
                let q = choose|q: Point| s.contains(q) && #[trigger] adjacent(q, e);
                let j = choose|j: int| 0 <= j < pts@.len() && pts@[j] == q;
                assert(adjacent(pts@[j], e));
                assert(handled(g, seed, pts@, libs, e));
            }
        }
        libs.unique_seq_to_set();
        let w = marked(g, visited@);
        assert(closed_under(g, w)) by {
            assert forall|a: Point, b: Point|
                w.contains(a) && g.contains(b) && #[trigger] adjacent(a, b) && g.at(b) == g.at(
                    a,
                ) implies w.contains(b) by {
                assert(visited@[g.index(a)] == (v0[g.index(a)] || pts@.contains(a)));
                assert(visited@[g.index(b)] == (v0[g.index(b)] || pts@.contains(b)));
                if v0[g.index(a)] {
                    assert(marked(g, v0).contains(a));
                    assert(marked(g, v0).contains(b));
                } else {
                    assert(s.contains(a));
                    assert(s.contains(b));
                }
            }
        }
        assert forall|j: int| 0 <= j < pts@.len() implies !v0[g.index(#[trigger] pts@[j])] by {}
    }
    Group { points: pts, liberties, team }
}

/// Whether `groups` lists the groups of the board `g`: each is a group of the board with its
/// liberties counted, every stone is in one of them and no point in two, the groups come in
/// the order of their first points, row by row, and a group's first point is the first of
/// its points in that order.
pub open spec fn lists_groups(g: Grid<Color>, groups: Seq<Group>) -> bool {
    &&& forall|i: int| 0 <= i < groups.len() ==> (#[trigger] groups[i]).describes(g)
    &&& forall|p: Point|
        g.contains(p) && g.at(p) != Color(0) ==> exists|i: int|
            0 <= i < groups.len() && #[trigger] groups[i].points@.contains(p)
    &&& forall|i: int, j: int, p: Point|
        0 <= i < j < groups.len() ==> !(#[trigger] groups[i].points@.contains(p)
            && #[trigger] groups[j].points@.contains(p))
    &&& forall|i: int, j: int|
        0 <= i < j < groups.len() ==> g.index((#[trigger] groups[i]).points@[0]) < g.index(
            (#[trigger] groups[j]).points@[0],
        )
    &&& forall|i: int, k: int|
        0 <= i < groups.len() && 0 <= k < groups[i].points@.len() ==> g.index(
            groups[i].points@[0],
        ) <= g.index(#[trigger] groups[i].points@[k])
}

/// The groups of the board.
///
/// Every stone belongs to exactly one of the groups returned, and each of them is a group of
/// the board with its liberties counted. The groups come in the order of their first points,
/// row by row, and a group's first point is the first of its points in that order.
pub fn find_groups(board: &Board<Color>) -> (groups: Vec<Group>)
    requires
        board.wf(),
    ensures
        lists_groups(board@, groups@),
{
    let ghost g = board@;
    let n = board.points.len();
    let mut visited: Vec<bool> = Vec::new();
    let mut marks: Vec<usize> = Vec::new();
    let mut i: usize = 0;
    while i < n
        invariant
            i <= n,
            visited@.len() == i,
            marks@.len() == i,
            forall|k: int| 0 <= k < i ==> !visited@[k],
            forall|k: int| 0 <= k < i ==> marks@[k] == 0,
        decreases n - i,
    {
        visited.push(false);
        marks.push(0);
        i = i + 1;
    }
    let mut groups: Vec<Group> = Vec::new();
    let mut i: usize = 0;
    proof {
        assert forall|p: Point| g.contains(p) implies !marked(g, visited@).contains(p) by {
            g.lemma_index(p);
        }
    }
    while i < n
        invariant
            g == board@,
            board.wf(),
            n == g.cells.len(),
            i <= n,
            visited@.len() == n,
            marks@.len() == n,
            closed_under(g, marked(g, visited@)),
            forall|k: int| 0 <= k < marks@.len() ==> #[trigger] marks@[k] <= i,
            forall|k: int| 0 <= k < groups@.len() ==> (#[trigger] groups@[k]).describes(g),
            forall|k: int| 0 <= k < i && g.cells[k] != Color(0) ==> #[trigger] visited@[k],
            forall|p: Point|
                g.contains(p) ==> (#[trigger] visited@[g.index(p)] <==> exists|k: int|
                    0 <= k < groups@.len() && (#[trigger] groups@[k]).points@.contains(p)),
            forall|a: int, b: int, p: Point|
                0 <= a < b < groups@.len() ==> !(#[trigger] groups@[a].points@.contains(p)
                    && #[trigger] groups@[b].points@.contains(p)),
            forall|k: int|
                0 <= k < groups@.len() ==> g.index((#[trigger] groups@[k]).points@[0]) < i,
            forall|a: int, b: int|
                0 <= a < b < groups@.len() ==> g.index((#[trigger] groups@[a]).points@[0])
                    < g.index((#[trigger] groups@[b]).points@[0]),
            forall|a: int, k: int|
                0 <= a < groups@.len() && 0 <= k < groups@[a].points@.len() ==> g.index(
                    groups@[a].points@[0],
                ) <= g.index(#[trigger] groups@[a].points@[k]),
        decreases n - i,
    {
        if board.points[i].0 != 0 && !visited[i] {
            let p = board.point_at(i);
            let ghost v0 = visited@;
            let ghost groups0 = groups@;
            let group = flood(board, p, &mut visited, &mut marks, i + 1);
            proof {
                assert forall|k: int| 0 <= k < group.points@.len() implies g.index(
                    group.points@[0],
                ) <= g.index(#[trigger] group.points@[k]) by {
                    let q = group.points@[k];
                    assert(group.points@.to_set().contains(q));
                    lemma_connected_same(g, p, q);
                    g.lemma_index(q);
                    if g.index(q) < i {
                        assert(v0[g.index(q)]);
                    }
                }
            }
            groups.push(group);
            proof {
                assert forall|k: int|
                    0 <= k < groups@.len() implies (#[trigger] groups@[k]).describes(
                    g,
                ) by {
                    if k < groups0.len() {
                        assert(groups@[k] == groups0[k]);
                    }
                }
                assert forall|q: Point|
                    g.contains(q) implies (#[trigger] visited@[g.index(q)] <==> exists|
                    k: int,
                |
                    0 <= k < groups@.len() && (#[trigger] groups@[k]).points@.contains(q)) by {
                    g.lemma_index(q);
                    assert(v0[g.index(q)] <==> exists|k: int|
                        0 <= k < groups0.len() && (#[trigger] groups0[k]).points@.contains(q));
                    if visited@[g.index(q)] {
                        if v0[g.index(q)] {
                            let k = choose|k: int|
                                0 <= k < groups0.len() && (#[trigger] groups0[k]).points@.contains(q);
                            assert(groups@[k] == groups0[k]);
                        } else {
                            assert(groups@[groups0.len() as int].points@.contains(q));
                        }
                    }
                    if exists|k: int|
                        0 <= k < groups@.len() && (#[trigger] groups@[k]).points@.contains(q) {
                        let k = choose|k: int|
                            0 <= k < groups@.len() && (#[trigger] groups@[k]).points@.contains(q);
                        if k < groups0.len() {
                            assert(groups@[k] == groups0[k]);
                        }
                    }
                }
                assert forall|a: int, b: int, q: Point| 0 <= a < b < groups@.len() implies !(
                #[trigger] groups@[a].points@.contains(q) && #[trigger] groups@[b].points@.contains(
                    q,
                )) by {
                    assert(groups@[a] == groups0[a]);
                    if b < groups0.len() {
                        assert(groups@[b] == groups0[b]);
                    } else if groups@[a].points@.contains(q) && groups@[b].points@.contains(q) {
                        let j = choose|j: int|
                            0 <= j < groups@[b].points@.len() && groups@[b].points@[j] == q;
                        assert(!v0[g.index(groups@[b].points@[j])]);
                        assert(groups@[a].points@.to_set().contains(q));
                        lemma_connected_same(g, groups@[a].points@[0], q);
                        assert(g.contains(q));
                    }
                }
                assert forall|a: int, b: int| 0 <= a < b < groups@.len() implies g.index(
                    (#[trigger] groups@[a]).points@[0],
                ) < g.index((#[trigger] groups@[b]).points@[0]) by {
                    assert(groups@[a] == groups0[a]);
                    if b < groups0.len() {
                        assert(groups@[b] == groups0[b]);
                    }
                }
                assert forall|a: int, k: int|
                    0 <= a < groups@.len() && 0 <= k < groups@[a].points@.len() implies g.index(
                    groups@[a].points@[0],
                ) <= g.index(#[trigger] groups@[a].points@[k]) by {
                    if a < groups0.len() {
                        assert(groups@[a] == groups0[a]);
                    }
                }
                assert forall|k: int| 0 <= k < groups@.len() implies g.index(
                    (#[trigger] groups@[k]).points@[0],
                ) < i + 1 by {
                    if k < groups0.len() {
                        assert(groups@[k] == groups0[k]);
                    }
                }
                assert forall|k: int|
                    0 <= k < i + 1 && g.cells[k] != Color(0) implies #[trigger] visited@[k] by {
                    g.lemma_point(k);
                    assert(g.contains(g.point(k)));
                    if k == i {
                        assert(groups@[groups0.len() as int].points@[0] == p);
                    }
                }
            }
        } else {
            proof {
                assert forall|k: int|
                    0 <= k < marks@.len() implies #[trigger] marks@[k] <= i + 1 by {}
            }
        }
        i = i + 1;
    }
    proof {
        assert forall|p: Point| g.contains(p) && g.at(p) != Color(0) implies exists|k: int|
            0 <= k < groups@.len() && #[trigger] groups@[k].points@.contains(p) by {
            g.lemma_index(p);
            assert(visited@[g.index(p)]);
            let k = choose|k: int|
                0 <= k < groups@.len() && (#[trigger] groups@[k]).points@.contains(p);
            assert(groups@[k].points@.contains(p));
        }
    }
    groups
}

} // verus!
