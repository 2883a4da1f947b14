//! Integer geometry for layout: app units, points, sizes, rectangles, and
//! saturating arithmetic with its basic algebra.
//!
//! All lengths are app units (`Au`), an unsigned integer unit. Layout sums
//! lengths (stacking heights, accumulating line widths) and takes maxima;
//! sums saturate at `u64::MAX` rather than wrap, and the saturation point is
//! far beyond any meaningful geometry.

use vstd::prelude::*;

verus! {

/// A length in app units.
pub type Au = u64;

/// A point in the coordinate space of some containing flow.
#[derive(Clone, Copy, Debug, PartialEq, Eq, Structural)]
pub struct Point2D {
    pub x: Au,
    pub y: Au,
}

/// A width and height.
#[derive(Clone, Copy, Debug, PartialEq, Eq, Structural)]
pub struct Size2D {
    pub width: Au,
    pub height: Au,
}

/// An axis-aligned rectangle: an origin and a size.
#[derive(Clone, Copy, Debug, PartialEq, Eq, Structural)]
pub struct Rect {
    pub origin: Point2D,
    pub size: Size2D,
}

impl Point2D {
    pub fn new(x: Au, y: Au) -> (r: Point2D)
        ensures
            r == (Point2D { x, y }),
    {
        Point2D { x, y }
    }
}

impl Size2D {
    pub fn new(width: Au, height: Au) -> (r: Size2D)
        ensures
            r == (Size2D { width, height }),
    {
        Size2D { width, height }
    }
}

impl Rect {
    pub fn new(x: Au, y: Au, width: Au, height: Au) -> (r: Rect)
        ensures
            r == (Rect { origin: Point2D { x, y }, size: Size2D { width, height } }),
    {
        Rect { origin: Point2D { x, y }, size: Size2D { width, height } }
    }

    /// The all-zero rectangle, the state of a position before any pass ran.
    pub fn zero() -> (r: Rect)
        ensures
            r == Rect::spec_zero(),
    {
        Rect { origin: Point2D { x: 0, y: 0 }, size: Size2D { width: 0, height: 0 } }
    }

    pub open spec fn spec_zero() -> Rect {
        Rect { origin: Point2D { x: 0, y: 0 }, size: Size2D { width: 0, height: 0 } }
    }

    /// Whether two rectangles share at least one point.
    pub open spec fn spec_intersects(self, other: Rect) -> bool {
        &&& self.origin.x < sat_add(other.origin.x, other.size.width)
        &&& other.origin.x < sat_add(self.origin.x, self.size.width)
        &&& self.origin.y < sat_add(other.origin.y, other.size.height)
        &&& other.origin.y < sat_add(self.origin.y, self.size.height)
    }

    pub fn intersects(&self, other: &Rect) -> (r: bool)
        ensures
            r == self.spec_intersects(*other),
    {
        self.origin.x < sat_add_exec(other.origin.x, other.size.width)
            && other.origin.x < sat_add_exec(self.origin.x, self.size.width)
            && self.origin.y < sat_add_exec(other.origin.y, other.size.height)
            && other.origin.y < sat_add_exec(self.origin.y, self.size.height)
    }
}

/// `a + b`, capped at `u64::MAX`.
pub open spec fn sat_add(a: u64, b: u64) -> u64 {
    if a + b > u64::MAX {
        u64::MAX
    } else {
        (a + b) as u64
    }
}

/// The larger of `a` and `b`.
pub open spec fn max_au(a: u64, b: u64) -> u64 {
    if a >= b {
        a
    } else {
        b
    }
}

pub fn sat_add_exec(a: u64, b: u64) -> (r: u64)
    ensures
        r == sat_add(a, b),
{
    if a > u64::MAX - b {
        u64::MAX
    } else {
        a + b
    }
}

pub fn max_au_exec(a: u64, b: u64) -> (r: u64)
    ensures
        r == max_au(a, b),
{
    if a >= b {
        a
    } else {
        b
    }
}

/// The saturating sum of a sequence of lengths.
pub open spec fn sat_sum(s: Seq<u64>) -> u64
    decreases s.len(),
{
    if s.len() == 0 {
        0u64
    } else {
        sat_add(sat_sum(s.drop_last()), s.last())
    }
}

/// The maximum of a sequence of lengths; 0 when empty.
pub open spec fn seq_max(s: Seq<u64>) -> u64
    decreases s.len(),
{
    if s.len() == 0 {
        0u64
    } else {
        max_au(seq_max(s.drop_last()), s.last())
    }
}

/// Saturating addition never loses ground: the sum bounds both arguments.
pub proof fn lemma_sat_add_bounds(a: u64, b: u64)
    ensures
        sat_add(a, b) >= a,
        sat_add(a, b) >= b,
        a + b <= u64::MAX ==> sat_add(a, b) == a + b,
{
}

/// Saturating addition is monotone in both arguments.
pub proof fn lemma_sat_add_mono(a1: u64, b1: u64, a2: u64, b2: u64)
    requires
        a1 <= a2,
        b1 <= b2,
    ensures
        sat_add(a1, b1) <= sat_add(a2, b2),
{
}

/// Extending a sequence by one element extends its saturating sum.
pub proof fn lemma_sat_sum_push(s: Seq<u64>, v: u64)
    ensures
        sat_sum(s.push(v)) == sat_add(sat_sum(s), v),
{
    assert(s.push(v).drop_last() =~= s);
}

/// Each prefix sum, even after adding the next element, stays below the
/// total: the geometric fact behind stacking children inside a parent.
pub proof fn lemma_sat_sum_prefix(s: Seq<u64>, k: int)
    requires
        0 <= k < s.len(),
    ensures
        sat_add(sat_sum(s.take(k)), s[k]) <= sat_sum(s),
        sat_sum(s.take(k)) <= sat_sum(s),
    decreases s.len(),
{
    if k == s.len() - 1 {
        assert(s.take(k + 1) =~= s);
        lemma_sat_sum_push(s.take(k), s[k]);
        lemma_sat_add_bounds(sat_sum(s.take(k)), s[k]);
    } else {
        lemma_sat_sum_prefix(s.drop_last(), k);
        assert(s.drop_last().take(k) =~= s.take(k));
        lemma_sat_add_bounds(sat_sum(s.drop_last()), s.last());
        lemma_sat_add_mono(sat_sum(s.drop_last()), 0, sat_sum(s.drop_last()), s.last());
        assert(sat_sum(s.drop_last()) <= sat_sum(s));
    }
}

/// The maximum of a sequence bounds each of its elements.
pub proof fn lemma_seq_max_bound(s: Seq<u64>, k: int)
    requires
        0 <= k < s.len(),
    ensures
        s[k] <= seq_max(s),
    decreases s.len(),
{
    if k < s.len() - 1 {
        lemma_seq_max_bound(s.drop_last(), k);
    }
}

/// Extending a sequence by one element updates its maximum.
pub proof fn lemma_seq_max_push(s: Seq<u64>, v: u64)
    ensures
        seq_max(s.push(v)) == max_au(seq_max(s), v),
{
    assert(s.push(v).drop_last() =~= s);
}

} // verus!
