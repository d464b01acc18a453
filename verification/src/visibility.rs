//! The fog overlay: for each cell, the teams that cannot see the stone on it.
//!
//! A cell's mask is kept as the sixteen bits of a `bitmaps::Bitmap<U16>`; bit `i` set means
//! that team `i` does not see the stone.

use vstd::prelude::*;
use bitmaps::Bitmap;
use typenum::U16;
use crate::board::{Board, Grid};
use crate::point_list::Point;

verus! {

/// The bits of one cell's mask.
pub type Visibility = u16;

/// A board of masks, of the same shape as the board of stones.
pub type VisibilityBoard = Board<u16>;

/// `Bitmap::new`: every bit of the new mask is false, so its value is zero.
#[verifier::external_body]
pub(crate) fn mask_new() -> (bits: u16)
    ensures
        bits == 0,
{
    Bitmap::<U16>::new().into_value()
}

/// `Bitmap::is_empty`: true exactly when no bit of the mask is set.
#[verifier::external_body]
pub(crate) fn mask_is_empty(bits: u16) -> (r: bool)
    ensures
        r == (bits == 0),
{
    Bitmap::<U16>::from_value(bits).is_empty()
}

impl Board<u16> {
    /// An overlay of the given size that hides nothing.
    pub fn clear(width: u32, height: u32) -> (b: Board<u16>)
        requires
            width * height <= usize::MAX,
        ensures
            b.wf(),
            b@ == Grid::tabulate(width as nat, height as nat, |p: Point| 0u16),
    {
        Board::new(width, height, mask_new())
    }

    /// Whether the stone at `p` is hidden from at least one team.
    pub fn is_hidden(&self, p: Point) -> (r: bool)
        requires
            self.wf(),
            self@.contains(p),
        ensures
            r == (self@.at(p) != 0),
    {
        !mask_is_empty(self.get_point(p))
    }

    /// Makes the cell at `p` visible to all, and says whether it was hidden before.
    pub fn uncover(&mut self, p: Point) -> (was_hidden: bool)
        requires
            old(self).wf(),
            old(self)@.contains(p),
        ensures
            final(self).wf(),
            final(self)@ == old(self)@.with(p, 0u16),
            was_hidden == (old(self)@.at(p) != 0),
    {
        let was_hidden = self.is_hidden(p);
        self.set_point(p, mask_new());
        was_hidden
    }
}

/// The overlay `v` with the cells of `s` made visible to all.
pub open spec fn wiped(v: Grid<u16>, s: Set<Point>) -> Grid<u16> {
    v.blank(s, 0u16)
}

/// Whether `v` hides a stone on a cell of `s`.
pub open spec fn hides_any(v: Grid<u16>, s: Set<Point>) -> bool {
    exists|q: Point| s.contains(q) && v.contains(q) && #[trigger] v.at(q) != 0
}

/// Wiping a set where nothing is hidden changes nothing.
pub proof fn lemma_wiped_unhidden(v: Grid<u16>, s: Set<Point>)
    requires
        v.wf(),
        !hides_any(v, s),
    ensures
        wiped(v, s) == v,
{
    v.lemma_blank(s, 0u16);
    let a = wiped(v, s);
    assert forall|q: Point| #[trigger] a.contains(q) implies a.at(q) == v.at(q) by {
        assert(v.contains(q));
        if s.contains(q) && v.at(q) != 0 {
            assert(hides_any(v, s));
        }
    }
    a.lemma_equal(v);
}

/// Makes every cell listed in `cells` visible to all, and says whether one of them was
/// hidden before.
pub fn uncover_all(v: &mut VisibilityBoard, cells: &Vec<Point>) -> (revealed: bool)
    requires
        old(v).wf(),
        forall|i: int| 0 <= i < cells@.len() ==> old(v)@.contains(#[trigger] cells@[i]),
    ensures
        final(v).wf(),
        final(v)@ == wiped(old(v)@, cells@.to_set()),
        revealed == hides_any(old(v)@, cells@.to_set()),
{
    let ghost v0 = v@;
    let mut revealed = false;
    let n = cells.len();
    let mut k: usize = 0;
    proof {
        v0.lemma_blank_nothing(0u16);
        assert(cells@.subrange(0, 0).to_set() =~= Set::empty());
    }
    while k < n
        invariant
            k <= n,
            n == cells@.len(),
            v0.wf(),
            v.wf(),
            forall|i: int| 0 <= i < cells@.len() ==> v0.contains(#[trigger] cells@[i]),
            v@ == wiped(v0, cells@.subrange(0, k as int).to_set()),
            revealed == hides_any(v0, cells@.subrange(0, k as int).to_set()),
        decreases n - k,
    {
        let q = cells[k];
        let ghost s = cells@.subrange(0, k as int).to_set();
        let ghost t = cells@.subrange(0, k + 1).to_set();
        proof {
            v0.lemma_blank(s, 0u16);
            assert(v0.contains(cells@[k as int]));
            assert(cells@.subrange(0, k + 1) =~= cells@.subrange(0, k as int).push(q));
            cells@.subrange(0, k as int).lemma_push_to_set_commute(q);
            v0.lemma_blank_with(s, 0u16, q);
        }
        let was_hidden = v.uncover(q);
        proof {
            if was_hidden {
                assert(t.contains(q) && v0.contains(q) && v0.at(q) != 0);
            }
            if hides_any(v0, t) && !hides_any(v0, s) {
                let r = choose|r: Point|
                    t.contains(r) && v0.contains(r) && #[trigger] v0.at(r) != 0;
                assert(r == q);
            }
            if hides_any(v0, s) {
                let r = choose|r: Point|
                    s.contains(r) && v0.contains(r) && #[trigger] v0.at(r) != 0;
                assert(t.contains(r));
            }
        }
        revealed = revealed || was_hidden;
        k += 1;
    }
    proof {
        assert(cells@.subrange(0, n as int) =~= cells@);
    }
    revealed
}

} // verus!
