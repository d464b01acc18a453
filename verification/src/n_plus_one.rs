//! The rule that a stone completing a straight run of a set length earns another turn.

use vstd::prelude::*;
use crate::board::{Board, Color, Grid};
use crate::game::NPlusOne;
use crate::point_list::{append_points, lemma_add_contains, lemma_push_contains, GroupVec, Point};
use crate::visibility::{uncover_all, wiped, VisibilityBoard};

verus! {

/// What the rule grants after a placement.
#[derive(Clone, Copy, Debug, PartialEq, Eq)]
pub enum NPlusOneResult {
    ExtraTurn,
    Nothing,
}

/// Whether `(dx, dy)` is one step along a row, a column or a diagonal.
pub open spec fn is_direction(dx: int, dy: int) -> bool {
    -1 <= dx <= 1 && -1 <= dy <= 1 && (dx != 0 || dy != 0)
}

/// Whether the cell one step from `(x, y)` is on the board and has colour `c`.
pub open spec fn continues(g: Grid<Color>, c: Color, x: int, y: int, dx: int, dy: int) -> bool {
    &&& is_direction(dx, dy)
    &&& 0 <= x + dx < g.width
    &&& 0 <= y + dy < g.height
    &&& g.at(((x + dx) as u32, (y + dy) as u32)) == c
}

/// How far the edge of the board is from `(x, y)` in the direction `(dx, dy)`.
pub open spec fn room(g: Grid<Color>, x: int, y: int, dx: int, dy: int) -> int {
    (if dx > 0 {
        g.width - x
    } else if dx < 0 {
        x + 1
    } else {
        0
    }) + (if dy > 0 {
        g.height - y
    } else if dy < 0 {
        y + 1
    } else {
        0
    })
}

/// The number of cells of colour `c` that follow `(x, y)` without a gap in the direction
/// `(dx, dy)`; `(x, y)` itself is not counted.
pub open spec fn ray(g: Grid<Color>, c: Color, x: int, y: int, dx: int, dy: int) -> nat
    decreases room(g, x, y, dx, dy),
{
    if continues(g, c, x, y, dx, dy) {
        1 + ray(g, c, x + dx, y + dy, dx, dy)
    } else {
        0
    }
}

/// Whether `q` is one of the cells that `ray` counts.
pub open spec fn in_ray(g: Grid<Color>, c: Color, x: int, y: int, dx: int, dy: int, q: Point) -> bool
    decreases room(g, x, y, dx, dy),
{
    if continues(g, c, x, y, dx, dy) {
        (q.0 == x + dx && q.1 == y + dy) || in_ray(g, c, x + dx, y + dy, dx, dy, q)
    } else {
        false
    }
}

/// The length of the run through `p` along `(dx, dy)`: `p` itself and the cells of its
/// colour that follow it without a gap on either side.
pub open spec fn run_length(g: Grid<Color>, p: Point, dx: int, dy: int) -> nat {
    1 + ray(g, g.at(p), p.0 as int, p.1 as int, -dx, -dy) + ray(
        g,
        g.at(p),
        p.0 as int,
        p.1 as int,
        dx,
        dy,
    )
}

/// Whether `q` is a cell of the run through `p` along `(dx, dy)`.
pub open spec fn in_run(g: Grid<Color>, p: Point, dx: int, dy: int, q: Point) -> bool {
    ||| q == p
    ||| in_ray(g, g.at(p), p.0 as int, p.1 as int, -dx, -dy, q)
    ||| in_ray(g, g.at(p), p.0 as int, p.1 as int, dx, dy, q)
}

/// Whether the run through `p` along `(dx, dy)` has exactly the length asked for.
pub open spec fn line_matches(g: Grid<Color>, p: Point, dx: int, dy: int, length: u8) -> bool {
    run_length(g, p, dx, dy) == length
}

/// Whether one of the four lines through `p` (column, row, both diagonals) matches.
pub open spec fn point_matches(g: Grid<Color>, p: Point, length: u8) -> bool {
    ||| line_matches(g, p, 0, 1, length)
    ||| line_matches(g, p, 1, 0, length)
    ||| line_matches(g, p, 1, 1, length)
    ||| line_matches(g, p, 1, -1, length)
}

/// Whether `q` lies on a matching line through `p`.
pub open spec fn point_shows(g: Grid<Color>, p: Point, length: u8, q: Point) -> bool {
    ||| line_matches(g, p, 0, 1, length) && in_run(g, p, 0, 1, q)
    ||| line_matches(g, p, 1, 0, length) && in_run(g, p, 1, 0, q)
    ||| line_matches(g, p, 1, 1, length) && in_run(g, p, 1, 1, q)
    ||| line_matches(g, p, 1, -1, length) && in_run(g, p, 1, -1, q)
}

/// Whether one of the points played lies on a matching line.
pub open spec fn extra_turn(g: Grid<Color>, played: Seq<Point>, length: u8) -> bool {
    exists|i: int| 0 <= i < played.len() && point_matches(g, #[trigger] played[i], length)
}

/// The cells of the matching lines through the points played.
pub open spec fn shown(g: Grid<Color>, played: Seq<Point>, length: u8) -> Set<Point> {
    Set::new(
        |q: Point|
            exists|i: int| 0 <= i < played.len() && point_shows(g, #[trigger] played[i], length, q),
    )
}

/// Appends to `line` the cells of colour `c` that follow `p` without a gap.
fn walk(board: &Board<Color>, c: Color, p: Point, dx: i64, dy: i64, line: &mut Vec<Point>)
    requires
        board.wf(),
        board@.contains(p),
        is_direction(dx as int, dy as int),
    ensures
        final(line)@.len() == old(line)@.len() + ray(
            board@,
            c,
            p.0 as int,
            p.1 as int,
            dx as int,
            dy as int,
        ),
        forall|q: Point|
            final(line)@.contains(q) <==> (old(line)@.contains(q) || in_ray(
                board@,
                c,
                p.0 as int,
                p.1 as int,
                dx as int,
                dy as int,
                q,
            )),
        forall|i: int|
            old(line)@.len() <= i < final(line)@.len() ==> board@.contains(#[trigger] final(line)@[i]),
        forall|i: int| 0 <= i < old(line)@.len() ==> final(line)@[i] == old(line)@[i],
{
    let ghost g = board@;
    let ghost line0 = line@;
    let mut x: i64 = p.0 as i64;
    let mut y: i64 = p.1 as i64;
    loop
        invariant
            g == board@,
            board.wf(),
            is_direction(dx as int, dy as int),
            0 <= x < g.width,
            0 <= y < g.height,
            line@.len() + ray(g, c, x as int, y as int, dx as int, dy as int) == line0.len() + ray(
                g,
                c,
                p.0 as int,
                p.1 as int,
                dx as int,
                dy as int,
            ),
            forall|q: Point|
                (line@.contains(q) || in_ray(g, c, x as int, y as int, dx as int, dy as int, q)) <==> (
                line0.contains(q) || in_ray(g, c, p.0 as int, p.1 as int, dx as int, dy as int, q)),
            forall|i: int| line0.len() <= i < line@.len() ==> g.contains(#[trigger] line@[i]),
            line0.len() <= line@.len(),
            forall|i: int| 0 <= i < line0.len() ==> line@[i] == line0[i],
        ensures
            !continues(g, c, x as int, y as int, dx as int, dy as int),
        decreases room(g, x as int, y as int, dx as int, dy as int),
    {
        let nx = x + dx;
        let ny = y + dy;
        if nx < 0 || ny < 0 || nx >= board.width as i64 || ny >= board.height as i64 {
            break;
        }
        let q: Point = (nx as u32, ny as u32);
        if board.get_point(q).0 != c.0 {
            break;
        }
        let ghost before = line@;
        line.push(q);
        proof {
            assert forall|r: Point|
                (line@.contains(r) || in_ray(g, c, nx as int, ny as int, dx as int, dy as int, r)) <==> (
                line0.contains(r) || in_ray(
                    g,
                    c,
                    p.0 as int,
                    p.1 as int,
                    dx as int,
                    dy as int,
                    r,
                )) by {
                lemma_push_contains(before, q, r);
            }
        }
        x = nx;
        y = ny;
    }
}

/// Measures the run through `p` along `(dx, dy)`; where it has the length asked for, its
/// cells are appended to `cells`.
fn scan_line(
    board: &Board<Color>,
    p: Point,
    dx: i64,
    dy: i64,
    length: u8,
    cells: &mut Vec<Point>,
) -> (hit: bool)
    requires
        board.wf(),
        board@.contains(p),
        is_direction(dx as int, dy as int),
        forall|i: int| 0 <= i < old(cells)@.len() ==> board@.contains(#[trigger] old(cells)@[i]),
    ensures
        hit == line_matches(board@, p, dx as int, dy as int, length),
        forall|q: Point|
            final(cells)@.contains(q) <==> (old(cells)@.contains(q) || (hit && in_run(
                board@,
                p,
                dx as int,
                dy as int,
                q,
            ))),
        forall|i: int|
            0 <= i < final(cells)@.len() ==> board@.contains(#[trigger] final(cells)@[i]),
{
    let ghost g = board@;
    let ghost cells0 = cells@;
    let c = board.get_point(p);
    let mut line: Vec<Point> = Vec::new();
    walk(board, c, p, -dx, -dy, &mut line);
    let ghost back = line@;
    line.push(p);
    let ghost mid = line@;
    walk(board, c, p, dx, dy, &mut line);
    proof {
        assert forall|q: Point| line@.contains(q) <==> in_run(g, p, dx as int, dy as int, q) by {
            lemma_push_contains(back, p, q);
        }
        assert forall|i: int| 0 <= i < line@.len() implies g.contains(#[trigger] line@[i]) by {
            if i < mid.len() {
                assert(line@[i] == mid[i]);
                if i < back.len() {
                    assert(mid[i] == back[i]);
                }
            }
        }
    }
    if line.len() != length as usize {
        return false;
    }
    append_points(cells, &line);
    proof {
        assert forall|q: Point|
            cells@.contains(q) <==> (cells0.contains(q) || in_run(g, p, dx as int, dy as int, q)) by {
            lemma_add_contains(cells0, line@, q);
        }
        assert forall|i: int| 0 <= i < cells@.len() implies g.contains(#[trigger] cells@[i]) by {
            if i < cells0.len() {
                assert(cells@[i] == cells0[i]);
            } else {
                assert(cells@[i] == line@[i - cells0.len()]);
            }
        }
    }
    true
}

/// Looks for matching lines through the points played: says whether there is one, and lists
/// the cells of all of them.
pub fn matching_lines(points_played: &GroupVec, board: &Board<Color>, rule: &NPlusOne) -> (r: (
    bool,
    Vec<Point>,
))
    requires
        board.wf(),
        forall|i: int|
            0 <= i < points_played@.len() ==> board@.contains(#[trigger] points_played@[i]),
    ensures
        r.0 == extra_turn(board@, points_played@, rule.length),
        r.1@.to_set() == shown(board@, points_played@, rule.length),
        forall|i: int| 0 <= i < r.1@.len() ==> board@.contains(#[trigger] r.1@[i]),
{
    let ghost g = board@;
    let ghost played = points_played@;
    let length = rule.length;
    let mut matched = false;
    let mut cells: Vec<Point> = Vec::new();
    let n = points_played.len();
    let mut i: usize = 0;
    while i < n
        invariant
            g == board@,
            played == points_played@,
            board.wf(),
            i <= n,
            n == played.len(),
            forall|k: int| 0 <= k < played.len() ==> g.contains(#[trigger] played[k]),
            matched == extra_turn(g, played.subrange(0, i as int), length),
            forall|q: Point|
                cells@.contains(q) <==> shown(g, played.subrange(0, i as int), length).contains(q),
            forall|k: int| 0 <= k < cells@.len() ==> g.contains(#[trigger] cells@[k]),
        decreases n - i,
    {
        let p = points_played.get(i);
        let ghost before = cells@;
        let vertical = scan_line(board, p, 0, 1, length, &mut cells);
        let horizontal = scan_line(board, p, 1, 0, length, &mut cells);
        let falling = scan_line(board, p, 1, 1, length, &mut cells);
        let rising = scan_line(board, p, 1, -1, length, &mut cells);
        proof {
            let done = played.subrange(0, i as int);
            let next = played.subrange(0, i + 1);
            assert(next =~= done.push(p));
            assert((vertical || horizontal || falling || rising) == point_matches(g, p, length));
            assert(extra_turn(g, next, length) == (extra_turn(g, done, length) || point_matches(
                g,
                p,
                length,
            ))) by {
                if extra_turn(g, done, length) {
                    let k = choose|k: int|
                        0 <= k < done.len() && point_matches(g, #[trigger] done[k], length);
                    assert(next[k] == done[k]);
                }
                if point_matches(g, p, length) {
                    assert(next[i as int] == p);
                }
                if extra_turn(g, next, length) {
                    let k = choose|k: int|
                        0 <= k < next.len() && point_matches(g, #[trigger] next[k], length);
                    if k < i {
                        assert(done[k] == next[k]);
                    }
                }
            }
            assert forall|q: Point|
                cells@.contains(q) <==> shown(g, next, length).contains(q) by {
                assert(cells@.contains(q) <==> (before.contains(q) || point_shows(g, p, length, q)));
                if shown(g, done, length).contains(q) {
                    let k = choose|k: int|
                        0 <= k < done.len() && point_shows(g, #[trigger] done[k], length, q);
                    assert(next[k] == done[k]);
                }
                if point_shows(g, p, length, q) {
                    assert(next[i as int] == p);
                }
                if shown(g, next, length).contains(q) {
                    let k = choose|k: int|
                        0 <= k < next.len() && point_shows(g, #[trigger] next[k], length, q);
                    if k < i {
                        assert(done[k] == next[k]);
                    }
                }
            }
        }
        matched = matched || vertical || horizontal || falling || rising;
        i += 1;
    }
    proof {
        assert(played.subrange(0, n as int) =~= played);
        assert(cells@.to_set() =~= shown(g, played, length));
    }
    (matched, cells)
}

/// Applies the rule to the points just played.
///
/// The result is `ExtraTurn` exactly when the run through one of the points, along its
/// column, its row or one of its diagonals, has the length of the rule. The cells of every
/// such run are made visible to all in the overlay, if there is one.
pub fn check(
    points_played: &GroupVec,
    board: &Board<Color>,
    visibility: Option<&mut VisibilityBoard>,
    rule: &NPlusOne,
) -> (r: NPlusOneResult)
    requires
        board.wf(),
        forall|i: int|
            0 <= i < points_played@.len() ==> board@.contains(#[trigger] points_played@[i]),
        match visibility {
            Some(v) => v.wf() && v@.same_shape(board@),
            None => true,
        },
    ensures
        (r == NPlusOneResult::ExtraTurn) == extra_turn(board@, points_played@, rule.length),
        r == NPlusOneResult::ExtraTurn || r == NPlusOneResult::Nothing,
        match visibility {
            Some(v) => final(v).wf() && final(v)@ == wiped(
                v@,
                shown(board@, points_played@, rule.length),
            ),
            None => true,
        },
{
    let (matched, cells) = matching_lines(points_played, board, rule);
    match visibility {
        Some(v) => {
            uncover_all(v, &cells);
        },
        None => {},
    }
    if matched {
        return NPlusOneResult::ExtraTurn;
    }
    NPlusOneResult::Nothing
}

} // verus!
