//! Short lists of board points, kept in a `tinyvec::TinyVec`.

use vstd::prelude::*;
use tinyvec::TinyVec;

verus! {

/// A board coordinate `(x, y)`.
pub type Point = (u32, u32);

/// A list of points that stays on the stack while it holds at most eight.
#[verifier::external_body]
pub struct GroupVec {
    inner: TinyVec<[(u32, u32); 8]>,
}

/// The points that a list holds, first to last.
pub uninterp spec fn list_points(v: GroupVec) -> Seq<(u32, u32)>;

impl View for GroupVec {
    type V = Seq<Point>;

    open spec fn view(&self) -> Seq<Point> {
        list_points(*self)
    }
}

/// `TinyVec::new`: the list it returns holds nothing.
#[verifier::external_body]
pub(crate) fn list_new() -> (v: GroupVec)
    ensures
        list_points(v) == Seq::<(u32, u32)>::empty(),
{
    GroupVec { inner: TinyVec::new() }
}

/// `TinyVec::push`: the value is placed after the points already held.
#[verifier::external_body]
pub(crate) fn list_push(v: &mut GroupVec, p: (u32, u32))
    ensures
        list_points(*final(v)) == list_points(*old(v)).push(p),
{
    v.inner.push(p)
}

/// `TinyVec::len`: the number of points held.
#[verifier::external_body]
pub(crate) fn list_len(v: &GroupVec) -> (n: usize)
    ensures
        n == list_points(*v).len(),
{
    v.inner.len()
}

/// Indexing a `TinyVec`: the point at position `i`.
#[verifier::external_body]
pub(crate) fn list_get(v: &GroupVec, i: usize) -> (p: (u32, u32))
    requires
        i < list_points(*v).len(),
    ensures
        p == list_points(*v)[i as int],
{
    v.inner[i]
}

/// `TinyVec::clone`: the copy holds the same points in the same order.
#[verifier::external_body]
pub(crate) fn list_clone(v: &GroupVec) -> (r: GroupVec)
    ensures
        list_points(r) == list_points(*v),
{
    GroupVec { inner: v.inner.clone() }
}

/// A value is in a list with one more item if it is in the list or is that item.
pub proof fn lemma_push_contains<T>(s: Seq<T>, v: T, x: T)
    ensures
        s.push(v).contains(x) <==> (s.contains(x) || x == v),
{
    let t = s.push(v);
    if s.contains(x) {
        let j = choose|j: int| 0 <= j < s.len() && s[j] == x;
        assert(t[j] == x);
    }
    if x == v {
        assert(t[s.len() as int] == x);
    }
    if t.contains(x) {
        let j = choose|j: int| 0 <= j < t.len() && t[j] == x;
        if j < s.len() {
            assert(s[j] == x);
        }
    }
}

/// A value is in two lists joined if it is in one of them.
pub proof fn lemma_add_contains<T>(a: Seq<T>, b: Seq<T>, x: T)
    ensures
        (a + b).contains(x) <==> (a.contains(x) || b.contains(x)),
{
    let t = a + b;
    if a.contains(x) {
        let j = choose|j: int| 0 <= j < a.len() && a[j] == x;
        assert(t[j] == x);
    }
    if b.contains(x) {
        let j = choose|j: int| 0 <= j < b.len() && b[j] == x;
        assert(t[a.len() + j] == x);
    }
    if t.contains(x) {
        let j = choose|j: int| 0 <= j < t.len() && t[j] == x;
        if j < a.len() {
            assert(a[j] == x);
        } else {
            assert(b[j - a.len()] == x);
        }
    }
}

/// Filtering a list with one more item filters the list, and keeps the item if it passes.
pub proof fn lemma_filter_push<T>(s: Seq<T>, v: T, f: spec_fn(T) -> bool)
    ensures
        s.push(v).filter(f) == if f(v) {
            s.filter(f).push(v)
        } else {
            s.filter(f)
        },
{
    reveal(Seq::filter);
    assert(s.push(v).drop_last() =~= s);
}

/// Filters that agree on the items of a list keep the same items.
pub proof fn lemma_filter_agree<T>(s: Seq<T>, f: spec_fn(T) -> bool, g: spec_fn(T) -> bool)
    requires
        forall|i: int| 0 <= i < s.len() ==> f(#[trigger] s[i]) == g(s[i]),
    ensures
        s.filter(f) == s.filter(g),
    decreases s.len(),
{
    reveal(Seq::filter);
    if s.len() > 0 {
        assert forall|i: int|
            0 <= i < s.drop_last().len() implies f(#[trigger] s.drop_last()[i]) == g(
            s.drop_last()[i],
        ) by {
            assert(s.drop_last()[i] == s[i]);
        }
        lemma_filter_agree(s.drop_last(), f, g);
        assert(f(s[s.len() - 1]) == g(s[s.len() - 1]));
    }
}

/// Filtering twice keeps the items that pass both filters.
pub proof fn lemma_filter_twice<T>(s: Seq<T>, f: spec_fn(T) -> bool, g: spec_fn(T) -> bool)
    ensures
        s.filter(f).filter(g) == s.filter(|x: T| f(x) && g(x)),
    decreases s.len(),
{
    reveal(Seq::filter);
    let both = |x: T| f(x) && g(x);
    if s.len() > 0 {
        lemma_filter_twice(s.drop_last(), f, g);
        if f(s.last()) {
            lemma_filter_push(s.drop_last().filter(f), s.last(), g);
        }
    }
}

/// A filtered list holds the items of the list that pass the filter.
pub proof fn lemma_filter_holds<T>(s: Seq<T>, f: spec_fn(T) -> bool, x: T)
    ensures
        s.filter(f).contains(x) <==> (s.contains(x) && f(x)),
    decreases s.len(),
{
    reveal(Seq::filter);
    if s.len() > 0 {
        lemma_filter_holds(s.drop_last(), f, x);
        lemma_push_contains(s.drop_last(), s.last(), x);
        assert(s.drop_last().push(s.last()) =~= s);
        if f(s.last()) {
            lemma_push_contains(s.drop_last().filter(f), s.last(), x);
        }
    }
}

/// The filter that keeps the points other than `p`.
pub open spec fn other_than(p: Point) -> spec_fn(Point) -> bool {
    |x: Point| x != p
}

/// Appends the points of `src` to `dst`.
pub fn append_points(dst: &mut Vec<Point>, src: &Vec<Point>)
    ensures
        final(dst)@ == old(dst)@ + src@,
{
    let ghost dst0 = dst@;
    let n = src.len();
    let mut k: usize = 0;
    proof {
        assert(dst@ =~= dst0 + src@.subrange(0, 0));
    }
    while k < n
        invariant
            k <= n,
            n == src@.len(),
            dst@ == dst0 + src@.subrange(0, k as int),
        decreases n - k,
    {
        dst.push(src[k]);
        proof {
            assert(dst@ =~= dst0 + src@.subrange(0, k + 1));
        }
        k += 1;
    }
    proof {
        assert(src@.subrange(0, n as int) =~= src@);
    }
}

/// Whether the two points differ.
pub fn point_differs(a: &Point, b: &Point) -> (r: bool)
    ensures
        r == (*a != *b),
{
    a.0 != b.0 || a.1 != b.1
}

/// `TinyVec::retain`, keeping the points that differ from `p`: they stay in their order,
/// and every occurrence of `p` leaves.
#[verifier::external_body]
pub(crate) fn list_remove(v: &mut GroupVec, p: (u32, u32))
    ensures
        list_points(*final(v)) == list_points(*old(v)).filter(other_than(p)),
{
    v.inner.retain(|x| point_differs(x, &p))
}

impl Clone for GroupVec {
    /// A copy of the list.
    fn clone(&self) -> (r: GroupVec)
        ensures
            r@ == self@,
    {
        list_clone(self)
    }
}

impl GroupVec {
    /// Takes every occurrence of `p` out of the list.
    pub fn remove_all(&mut self, p: Point)
        ensures
            final(self)@ == old(self)@.filter(other_than(p)),
    {
        list_remove(self, p)
    }

    /// A list that holds nothing.
    pub fn new() -> (v: GroupVec)
        ensures
            v@ == Seq::<Point>::empty(),
    {
        list_new()
    }

    /// Places `p` after the points already held.
    pub fn push(&mut self, p: Point)
        ensures
            final(self)@ == old(self)@.push(p),
    {
        list_push(self, p)
    }

    /// The number of points held.
    pub fn len(&self) -> (n: usize)
        ensures
            n == self@.len(),
    {
        list_len(self)
    }

    /// Whether the list holds nothing.
    pub fn is_empty(&self) -> (r: bool)
        ensures
            r == (self@.len() == 0),
    {
        list_len(self) == 0
    }

    /// The point at position `i`.
    pub fn get(&self, i: usize) -> (p: Point)
        requires
            i < self@.len(),
        ensures
            p == self@[i as int],
    {
        list_get(self, i)
    }

    /// Whether the list holds `p`.
    pub fn contains(&self, p: Point) -> (r: bool)
        ensures
            r == self@.contains(p),
    {
        let n = list_len(self);
        let mut i: usize = 0;
        while i < n
            invariant
                i <= n,
                n == self@.len(),
                forall|k: int| 0 <= k < i ==> self@[k] != p,
            decreases n - i,
        {
            let q = list_get(self, i);
            if q.0 == p.0 && q.1 == p.1 {
                return true;
            }
            i += 1;
        }
        false
    }

    /// The points of the list as a vector.
    pub fn to_vec(&self) -> (r: Vec<Point>)
        ensures
            r@ == self@,
    {
        let n = list_len(self);
        let mut r: Vec<Point> = Vec::new();
        let mut i: usize = 0;
        while i < n
            invariant
                i <= n,
                n == self@.len(),
                r@ == self@.subrange(0, i as int),
            decreases n - i,
        {
            r.push(list_get(self, i));
            proof {
                assert(r@ =~= self@.subrange(0, i + 1));
            }
            i += 1;
        }
        proof {
            assert(r@ =~= self@);
        }
        r
    }

    /// The list that holds the points of `points`, in their order.
    pub fn from_slice(points: &[Point]) -> (r: GroupVec)
        ensures
            r@ == points@,
    {
        let n = points.len();
        let mut r = list_new();
        let mut i: usize = 0;
        while i < n
            invariant
                i <= n,
                n == points@.len(),
                r@ == points@.subrange(0, i as int),
            decreases n - i,
        {
            list_push(&mut r, points[i]);
            proof {
                assert(r@ =~= points@.subrange(0, i + 1));
            }
            i += 1;
        }
        proof {
            assert(r@ =~= points@);
        }
        r
    }
}

} // verus!
