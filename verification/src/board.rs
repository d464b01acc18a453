//! The rectangular board: a grid of cells addressed by points.

use vstd::prelude::*;
use crate::point_list::Point;

verus! {

/// A cell's content: `0` is empty, `1..` is a team.
#[derive(Clone, Copy, Debug, PartialEq, Eq, Hash, Structural)]
pub struct Color(pub u8);

impl Color {
    /// The colour of an empty cell.
    pub fn empty() -> (c: Color)
        ensures
            c == Color(0),
    {
        Color(0)
    }

    /// Whether this is the colour of an empty cell.
    pub fn is_empty(&self) -> (r: bool)
        ensures
            r == (self.0 == 0),
    {
        self.0 == 0
    }
}

/// The position of the cell of `p` on a board of the given width: rows follow one another.
pub closed spec fn cell_index(width: nat, p: Point) -> int {
    p.1 * width + p.0
}

/// The point of the cell at position `i` on a board of the given width.
pub closed spec fn cell_point(width: nat, i: int) -> Point {
    ((i % width as int) as u32, (i / width as int) as u32)
}

/// The mathematical content of a board: its dimensions and its cells, row by row.
pub struct Grid<T> {
    pub width: nat,
    pub height: nat,
    pub cells: Seq<T>,
}

impl<T> Grid<T> {
    /// There is one cell for each point and the coordinates fit in 32 bits.
    pub open spec fn wf(self) -> bool {
        &&& self.cells.len() == self.width * self.height
        &&& self.width <= u32::MAX
        &&& self.height <= u32::MAX
    }

    /// Whether `p` lies on the board.
    pub open spec fn contains(self, p: Point) -> bool {
        p.0 < self.width && p.1 < self.height
    }

    /// The position of `p`'s cell in `cells`.
    pub open spec fn index(self, p: Point) -> int {
        cell_index(self.width, p)
    }

    /// The point whose cell stands at position `i` of `cells`.
    pub open spec fn point(self, i: int) -> Point {
        cell_point(self.width, i)
    }

    /// The content of the cell at `p`.
    pub open spec fn at(self, p: Point) -> T {
        self.cells[self.index(p)]
    }

    /// The grid with the cell at `p` replaced by `v`.
    pub open spec fn with(self, p: Point, v: T) -> Grid<T> {
        Grid { width: self.width, height: self.height, cells: self.cells.update(self.index(p), v) }
    }

    /// Whether the two grids have the same dimensions.
    pub open spec fn same_shape<U>(self, other: Grid<U>) -> bool {
        self.width == other.width && self.height == other.height
    }

    /// The grid of the given dimensions whose cell at `p` holds `f(p)`.
    pub open spec fn tabulate(width: nat, height: nat, f: spec_fn(Point) -> T) -> Grid<T> {
        Grid {
            width,
            height,
            cells: Seq::new(
                width * height,
                |i: int| f(cell_point(width, i)),
            ),
        }
    }

    /// A point on the board has a position in `cells`, and is the point of that position.
    pub proof fn lemma_index(self, p: Point)
        requires
            self.wf(),
            self.contains(p),
        ensures
            0 <= self.index(p) < self.cells.len(),
            self.point(self.index(p)) == p,
    {
        let w = self.width as int;
        let h = self.height as int;
        let x = p.0 as int;
        let y = p.1 as int;
        assert(0 <= y * w + x < w * h) by (nonlinear_arith)
            requires
                0 <= x < w,
                0 <= y < h,
        ;
        assert((y * w + x) % w == x && (y * w + x) / w == y) by (nonlinear_arith)
            requires
                0 <= x < w,
                0 <= y,
        ;
    }

    /// A position in `cells` belongs to a point on the board, which has that position.
    pub proof fn lemma_point(self, i: int)
        requires
            self.wf(),
            0 <= i < self.cells.len(),
        ensures
            self.contains(self.point(i)),
            self.index(self.point(i)) == i,
    {
        let w = self.width as int;
        let h = self.height as int;
        assert(w > 0 && 0 <= i % w < w && 0 <= i / w < h && (i / w) * w + i % w == i)
            by (nonlinear_arith)
            requires
                0 <= i < w * h,
                0 <= w,
                0 <= h,
        ;
    }

    /// Two points on the board with the same position are the same point.
    pub proof fn lemma_index_distinct(self, p: Point, q: Point)
        requires
            self.wf(),
            self.contains(p),
            self.contains(q),
            p != q,
        ensures
            self.index(p) != self.index(q),
    {
        self.lemma_index(p);
        self.lemma_index(q);
    }

    /// What `tabulate` builds is well formed and holds `f(p)` at each point `p`.
    pub proof fn lemma_tabulate(width: nat, height: nat, f: spec_fn(Point) -> T)
        requires
            width <= u32::MAX,
            height <= u32::MAX,
        ensures
            Self::tabulate(width, height, f).wf(),
            forall|p: Point| #[trigger]
                Self::tabulate(width, height, f).contains(p) ==> Self::tabulate(
                    width,
                    height,
                    f,
                ).at(p) == f(p),
    {
        let g = Self::tabulate(width, height, f);
        assert forall|p: Point| #[trigger] g.contains(p) implies g.at(p) == f(p) by {
            g.lemma_index(p);
        }
    }

    /// Grids of one shape that agree at every point are equal.
    pub proof fn lemma_equal(self, other: Grid<T>)
        requires
            self.wf(),
            other.wf(),
            self.same_shape(other),
            forall|p: Point| #[trigger] self.contains(p) ==> self.at(p) == other.at(p),
        ensures
            self == other,
    {
        assert forall|i: int| 0 <= i < self.cells.len() implies self.cells[i] == other.cells[i] by {
            self.lemma_point(i);
            other.lemma_point(i);
            let p = self.point(i);
            assert(self.contains(p));
            assert(self.at(p) == other.at(p));
        }
        assert(self.cells =~= other.cells);
    }

    /// Replacing one cell changes that cell and no other.
    pub proof fn lemma_with(self, p: Point, v: T)
        requires
            self.wf(),
            self.contains(p),
        ensures
            self.with(p, v).wf(),
            self.with(p, v).same_shape(self),
            self.with(p, v).at(p) == v,
            forall|q: Point| #[trigger]
                self.contains(q) && q != p ==> self.with(p, v).at(q) == self.at(q),
    {
        self.lemma_index(p);
        assert forall|q: Point| #[trigger] self.contains(q) && q != p implies self.with(p, v).at(q)
            == self.at(q) by {
            self.lemma_index(q);
            self.lemma_index_distinct(p, q);
        }
    }
}

impl<T> Grid<T> {
    /// The grid with `v` in the cells of `s` and the other cells as they are.
    pub open spec fn blank(self, s: Set<Point>, v: T) -> Grid<T> {
        Grid::tabulate(
            self.width,
            self.height,
            |q: Point|
                if s.contains(q) {
                    v
                } else {
                    self.at(q)
                },
        )
    }

    /// What `blank` builds has the shape of the grid, holds `v` on `s` and agrees with the
    /// grid elsewhere.
    pub proof fn lemma_blank(self, s: Set<Point>, v: T)
        requires
            self.wf(),
        ensures
            self.blank(s, v).wf(),
            self.blank(s, v).same_shape(self),
            forall|q: Point|
                self.contains(q) ==> #[trigger] self.blank(s, v).at(q) == (if s.contains(q) {
                    v
                } else {
                    self.at(q)
                }),
    {
        let f = |q: Point|
            if s.contains(q) {
                v
            } else {
                self.at(q)
            };
        Grid::lemma_tabulate(self.width, self.height, f);
        assert forall|q: Point| self.contains(q) implies #[trigger] self.blank(s, v).at(q) == f(
            q,
        ) by {
            assert(self.blank(s, v).contains(q));
        }
    }

    /// Writing `v` to one more cell is blanking a set with one more point.
    pub proof fn lemma_blank_with(self, s: Set<Point>, v: T, p: Point)
        requires
            self.wf(),
            self.contains(p),
        ensures
            self.blank(s, v).with(p, v) == self.blank(s.insert(p), v),
    {
        self.lemma_blank(s, v);
        self.lemma_blank(s.insert(p), v);
        let a = self.blank(s, v).with(p, v);
        let b = self.blank(s.insert(p), v);
        self.blank(s, v).lemma_with(p, v);
        assert forall|q: Point| #[trigger] a.contains(q) implies a.at(q) == b.at(q) by {
            assert(self.contains(q));
            assert(self.blank(s, v).contains(q));
        }
        a.lemma_equal(b);
    }

    /// Blanking no cell changes nothing.
    pub proof fn lemma_blank_nothing(self, v: T)
        requires
            self.wf(),
        ensures
            self.blank(Set::empty(), v) == self,
    {
        self.lemma_blank(Set::empty(), v);
        let a = self.blank(Set::empty(), v);
        assert forall|q: Point| #[trigger] a.contains(q) implies a.at(q) == self.at(q) by {
            assert(self.contains(q));
        }
        a.lemma_equal(self);
    }

    /// Blanking one set and then another is blanking their union.
    pub proof fn lemma_blank_twice(self, s: Set<Point>, t: Set<Point>, v: T)
        requires
            self.wf(),
        ensures
            self.blank(s, v).blank(t, v) == self.blank(s.union(t), v),
    {
        self.lemma_blank(s, v);
        self.blank(s, v).lemma_blank(t, v);
        self.lemma_blank(s.union(t), v);
        let a = self.blank(s, v).blank(t, v);
        let b = self.blank(s.union(t), v);
        assert forall|q: Point| #[trigger] a.contains(q) implies a.at(q) == b.at(q) by {
            assert(self.contains(q));
            assert(self.blank(s, v).contains(q));
        }
        a.lemma_equal(b);
    }
}

/// Whether `p` and `q` are orthogonal neighbours.
pub open spec fn adjacent(p: Point, q: Point) -> bool {
    ||| (p.0 == q.0 && (p.1 + 1 == q.1 || q.1 + 1 == p.1))
    ||| (p.1 == q.1 && (p.0 + 1 == q.0 || q.0 + 1 == p.0))
}

/// A board of cells of type `T`, stored row by row.
#[derive(Debug, PartialEq, Eq)]
pub struct Board<T> {
    pub width: u32,
    pub height: u32,
    pub points: Vec<T>,
}

impl<T> View for Board<T> {
    type V = Grid<T>;

    open spec fn view(&self) -> Grid<T> {
        Grid { width: self.width as nat, height: self.height as nat, cells: self.points@ }
    }
}

impl<T: Copy> Board<T> {
    /// There is one cell for each point.
    pub open spec fn wf(&self) -> bool {
        self@.wf()
    }

    /// A board of the given size with `fill` in every cell.
    pub fn new(width: u32, height: u32, fill: T) -> (b: Board<T>)
        requires
            width * height <= usize::MAX,
        ensures
            b.wf(),
            b@ == Grid::tabulate(width as nat, height as nat, |p: Point| fill),
    {
        let n: usize = (width as usize) * (height as usize);
        let mut points: Vec<T> = Vec::new();
        let mut i: usize = 0;
        while i < n
            invariant
                i <= n,
                points@.len() == i,
                forall|k: int| 0 <= k < i ==> points@[k] == fill,
            decreases n - i,
        {
            points.push(fill);
            i += 1;
        }
        let b = Board { width, height, points };
        proof {
            assert(b@.cells =~= Grid::tabulate(width as nat, height as nat, |p: Point| fill).cells);
        }
        b
    }

    /// Whether there is one cell for each point.
    pub fn is_wf(&self) -> (r: bool)
        ensures
            r == self.wf(),
    {
        let w = self.width as u64;
        let h = self.height as u64;
        proof {
            assert(w * h <= 0xffff_ffff * 0xffff_ffff) by (nonlinear_arith)
                requires
                    0 <= w <= 0xffff_ffff,
                    0 <= h <= 0xffff_ffff,
            ;
            assert(self.points@.len() == self.points.len());
        }
        self.points.len() as u64 == w * h
    }

    /// Whether the two boards have the same dimensions.
    pub fn same_shape<U: Copy>(&self, other: &Board<U>) -> (r: bool)
        ensures
            r == self@.same_shape(other@),
    {
        self.width == other.width && self.height == other.height
    }

    /// Whether `p` lies on the board.
    pub fn point_within(&self, p: Point) -> (r: bool)
        ensures
            r == self@.contains(p),
    {
        p.0 < self.width && p.1 < self.height
    }

    /// The position of `p`'s cell in `points`.
    pub fn offset(&self, p: Point) -> (i: usize)
        requires
            self.wf(),
            self@.contains(p),
        ensures
            i == self@.index(p),
            i < self.points@.len(),
    {
        proof {
            self@.lemma_index(p);
            assert(self.points@.len() == self.points.len());
            assert(0 <= (p.1 as int) * (self.width as int) <= self@.index(p)) by (nonlinear_arith)
                requires
                    self@.index(p) == p.1 * self.width + p.0,
            ;
        }
        (p.1 as usize) * (self.width as usize) + (p.0 as usize)
    }

    /// The point whose cell stands at position `i` of `points`.
    pub fn point_at(&self, i: usize) -> (p: Point)
        requires
            self.wf(),
            i < self.points@.len(),
        ensures
            p == self@.point(i as int),
            self@.contains(p),
            self@.index(p) == i,
    {
        proof {
            self@.lemma_point(i as int);
        }
        let w = self.width as usize;
        ((i % w) as u32, (i / w) as u32)
    }

    /// The content of the cell at `p`.
    pub fn get_point(&self, p: Point) -> (v: T)
        requires
            self.wf(),
            self@.contains(p),
        ensures
            v == self@.at(p),
    {
        let i = self.offset(p);
        self.points[i]
    }

    /// Writes `v` to the cell at `p`.
    pub fn set_point(&mut self, p: Point, v: T)
        requires
            old(self).wf(),
            old(self)@.contains(p),
        ensures
            final(self).wf(),
            final(self)@ == old(self)@.with(p, v),
    {
        proof {
            self@.lemma_with(p, v);
        }
        let i = self.offset(p);
        self.points.set(i, v);
    }

    /// The cell at `p`, to be written to.
    pub fn point_mut(&mut self, p: Point) -> (cell: &mut T)
        requires
            old(self).wf(),
            old(self)@.contains(p),
        ensures
            *cell == old(self)@.at(p),
            final(self)@ == old(self)@.with(p, *final(cell)),
    {
        let i = self.offset(p);
        &mut self.points[i]
    }

    /// The orthogonal neighbours of `p` that lie on the board: left, right, above, below.
    pub fn surrounding_points(&self, p: Point) -> (r: Vec<Point>)
        requires
            self@.contains(p),
        ensures
            r@ == self@.neighbors(p),
    {
        let mut r: Vec<Point> = Vec::new();
        if p.0 > 0 {
            r.push((p.0 - 1, p.1));
        }
        if p.0 + 1 < self.width {
            r.push((p.0 + 1, p.1));
        }
        if p.1 > 0 {
            r.push((p.0, p.1 - 1));
        }
        if p.1 + 1 < self.height {
            r.push((p.0, p.1 + 1));
        }
        proof {
            assert(r@ =~= self@.neighbors(p));
        }
        r
    }
}

impl<T: Copy> Clone for Board<T> {
    /// A copy of the board.
    fn clone(&self) -> (b: Board<T>)
        ensures
            b@ == self@,
    {
        let mut points: Vec<T> = Vec::new();
        let n = self.points.len();
        let mut i: usize = 0;
        while i < n
            invariant
                i <= n,
                n == self.points@.len(),
                points@ == self.points@.subrange(0, i as int),
            decreases n - i,
        {
            points.push(self.points[i]);
            proof {
                assert(points@ =~= self.points@.subrange(0, i + 1));
            }
            i += 1;
        }
        proof {
            assert(points@ =~= self.points@);
        }
        Board { width: self.width, height: self.height, points }
    }
}

impl<T> Grid<T> {
    /// The neighbours of `p` on the board, in the order left, right, above, below.
    pub open spec fn neighbors(self, p: Point) -> Seq<Point> {
        let left = if p.0 > 0 {
            seq![((p.0 - 1) as u32, p.1)]
        } else {
            seq![]
        };
        let right = if p.0 + 1 < self.width {
            seq![((p.0 + 1) as u32, p.1)]
        } else {
            seq![]
        };
        let above = if p.1 > 0 {
            seq![(p.0, (p.1 - 1) as u32)]
        } else {
            seq![]
        };
        let below = if p.1 + 1 < self.height {
            seq![(p.0, (p.1 + 1) as u32)]
        } else {
            seq![]
        };
        left + right + above + below
    }

    /// The neighbours of a point on the board are the points on the board adjacent to it,
    /// each listed once.
    pub proof fn lemma_neighbors(self, p: Point)
        requires
            self.wf(),
            self.contains(p),
        ensures
            self.neighbors(p).no_duplicates(),
            forall|q: Point|
                self.neighbors(p).contains(q) <==> (self.contains(q) && adjacent(p, q)),
    {
        let n = self.neighbors(p);
        let left: int = if p.0 > 0 {
            1
        } else {
            0
        };
        let right: int = if p.0 + 1 < self.width {
            1
        } else {
            0
        };
        let above: int = if p.1 > 0 {
            1
        } else {
            0
        };
        assert forall|q: Point| self.contains(q) && adjacent(p, q) implies n.contains(q) by {
            if p.0 == q.0 + 1 {
                assert(n[0] == q);
            } else if q.0 == p.0 + 1 {
                assert(n[left] == q);
            } else if p.1 == q.1 + 1 {
                assert(n[left + right] == q);
            } else {
                assert(n[left + right + above] == q);
            }
        }
    }
}

/// Mixes one word into a running hash: exclusive or, then a multiplication that wraps.
pub open spec fn hash_word(h: u64, w: u64) -> u64 {
    (h ^ w).wrapping_mul(0x0000_0100_0000_01b3u64)
}

/// Mixes the cells into a running hash, first to last.
pub open spec fn hash_cells(h: u64, cells: Seq<Color>) -> u64
    decreases cells.len(),
{
    if cells.len() == 0 {
        h
    } else {
        hash_word(hash_cells(h, cells.drop_last()), cells.last().0 as u64)
    }
}

/// The content hash of a board: a function of its dimensions and cells alone.
pub open spec fn board_hash(g: Grid<Color>) -> u64 {
    hash_cells(
        hash_word(hash_word(0xcbf2_9ce4_8422_2325u64, g.width as u64), g.height as u64),
        g.cells,
    )
}

impl Board<Color> {
    /// A board of the given size with no stone on it.
    pub fn empty(width: u32, height: u32) -> (b: Board<Color>)
        requires
            width * height <= usize::MAX,
        ensures
            b.wf(),
            b@ == Grid::tabulate(width as nat, height as nat, |p: Point| Color(0)),
    {
        Board::new(width, height, Color(0))
    }

    /// Whether the two boards have the same dimensions and the same cells.
    pub fn same_as(&self, other: &Board<Color>) -> (r: bool)
        ensures
            r == (self@ == other@),
    {
        if self.width != other.width || self.height != other.height || self.points.len()
            != other.points.len() {
            return false;
        }
        let n = self.points.len();
        let mut i: usize = 0;
        while i < n
            invariant
                i <= n,
                n == self.points@.len(),
                n == other.points@.len(),
                forall|k: int| 0 <= k < i ==> self.points@[k] == other.points@[k],
            decreases n - i,
        {
            if self.points[i].0 != other.points[i].0 {
                return false;
            }
            i += 1;
        }
        proof {
            assert(self.points@ =~= other.points@);
        }
        true
    }

    /// The content hash of the board.
    pub fn hash(&self) -> (h: u64)
        ensures
            h == board_hash(self@),
    {
        let mut h: u64 = 0xcbf2_9ce4_8422_2325u64;
        h = (h ^ (self.width as u64)).wrapping_mul(0x0000_0100_0000_01b3u64);
        h = (h ^ (self.height as u64)).wrapping_mul(0x0000_0100_0000_01b3u64);
        let ghost start = h;
        let n = self.points.len();
        let mut i: usize = 0;
        while i < n
            invariant
                i <= n,
                n == self.points@.len(),
                h == hash_cells(start, self.points@.subrange(0, i as int)),
            decreases n - i,
        {
            proof {
                assert(self.points@.subrange(0, i + 1).drop_last() =~= self.points@.subrange(
                    0,
                    i as int,
                ));
            }
            h = (h ^ (self.points[i].0 as u64)).wrapping_mul(0x0000_0100_0000_01b3u64);
            i += 1;
        }
        proof {
            assert(self.points@.subrange(0, n as int) =~= self.points@);
        }
        h
    }
}

} // verus!
