//! Axis-aligned rectangles, the bin-packing problem definition, and the
//! geometric predicates (containment, overlap) the decoder is built on.

use vstd::prelude::*;

verus! {

/// An axis-aligned rectangle: position `(x, y)` and extent
/// `(width, height)`. The same shape serves three roles: an item to pack
/// (position left at the origin), a placed rectangle in the bin, and a free
/// region of not-yet-used bin space tracked during one decode pass.
#[derive(Clone, Copy, Debug, PartialEq, Eq, Structural)]
pub struct Rect {
    pub x: i32,
    pub y: i32,
    pub width: i32,
    pub height: i32,
}

/// A rectangle lies fully inside a `bin_w` by `bin_h` bin, with positive
/// extent.
pub open spec fn rect_within_bin(r: Rect, bin_w: int, bin_h: int) -> bool {
    &&& 0 <= r.x
    &&& 0 <= r.y
    &&& 0 < r.width
    &&& 0 < r.height
    &&& r.x + r.width <= bin_w
    &&& r.y + r.height <= bin_h
}

/// Nonnegative position and extent, with edge coordinates that stay inside
/// the `i32` range: what the executable geometric tests need to be free of
/// overflow. Implied by `rect_within_bin` for any valid bin.
pub open spec fn rect_sums_bounded(r: Rect) -> bool {
    &&& 0 <= r.x
    &&& 0 <= r.y
    &&& 0 <= r.width
    &&& 0 <= r.height
    &&& r.x + r.width <= i32::MAX
    &&& r.y + r.height <= i32::MAX
}

/// Two axis-aligned rectangles overlap unless they are separated on at
/// least one axis (standard separating-axis test; touching edges do not
/// overlap).
pub open spec fn spec_overlap(a: Rect, b: Rect) -> bool {
    !(a.x + a.width <= b.x || b.x + b.width <= a.x || a.y + a.height <= b.y || b.y + b.height
        <= a.y)
}

/// `outer` contains `inner`: all four bounding edges of `inner` are
/// inside-or-equal to those of `outer`.
pub open spec fn spec_contains_rect(outer: Rect, inner: Rect) -> bool {
    &&& inner.x >= outer.x
    &&& inner.y >= outer.y
    &&& inner.x + inner.width <= outer.x + outer.width
    &&& inner.y + inner.height <= outer.y + outer.height
}

impl Rect {
    /// Item constructor: dimensions only, position left at the origin.
    pub fn new_unplaced(width: i32, height: i32) -> (r: Rect)
        ensures
            r == (Rect { x: 0, y: 0, width, height }),
    {
        Rect { x: 0, y: 0, width, height }
    }

    /// Mathematical area (may be negative for degenerate rectangles, which
    /// valid problems and valid free lists never hold).
    pub open spec fn spec_area(self) -> int {
        self.width * self.height
    }

    /// Area in square units.
    pub fn area(&self) -> (a: i32)
        requires
            i32::MIN <= self.spec_area() <= i32::MAX,
        ensures
            a == self.spec_area(),
    {
        self.width * self.height
    }

    /// Can a `rect_width` by `rect_height` rectangle fit inside `self`
    /// (dimension-wise, ignoring position)?
    pub fn contains(&self, rect_width: i32, rect_height: i32) -> (b: bool)
        ensures
            b == (self.width >= rect_width && self.height >= rect_height),
    {
        self.width >= rect_width && self.height >= rect_height
    }

    /// Does `self` contain `other` entirely (edges inside-or-equal)?
    pub fn contains_rect(&self, other: &Rect) -> (b: bool)
        requires
            rect_sums_bounded(*self),
            rect_sums_bounded(*other),
        ensures
            b == spec_contains_rect(*self, *other),
    {
        other.x >= self.x && other.y >= self.y && other.x + other.width <= self.x + self.width
            && other.y + other.height <= self.y + self.height
    }
}

/// Separating-axis overlap test for two axis-aligned rectangles.
pub fn rectangles_overlap(r1: &Rect, r2: &Rect) -> (b: bool)
    requires
        rect_sums_bounded(*r1),
        rect_sums_bounded(*r2),
    ensures
        b == spec_overlap(*r1, *r2),
{
    !(r1.x + r1.width <= r2.x || r2.x + r2.width <= r1.x || r1.y + r1.height <= r2.y || r2.y
        + r2.height <= r1.y)
}

/// The packing instance: one rectangular bin and the ordered list of items
/// to place. Item index is item identity; encodings are read positionally
/// against `rectangles`.
pub struct Problem {
    pub bin_width: i32,
    pub bin_height: i32,
    pub rectangles: Vec<Rect>,
}

impl Problem {
    /// Well-formedness assumed by the decoder and the genetic engine:
    /// positive bin dimensions whose product fits in `i32`, and strictly
    /// positive item dimensions.
    pub open spec fn valid(self) -> bool {
        &&& 0 < self.bin_width
        &&& 0 < self.bin_height
        &&& self.bin_width * self.bin_height <= i32::MAX
        &&& forall|i: int|
            0 <= i < self.rectangles@.len() ==> 0 < (#[trigger] self.rectangles@[i]).width && 0
                < self.rectangles@[i].height
    }

    /// The bin's total area.
    pub open spec fn spec_bin_area(self) -> int {
        self.bin_width * self.bin_height
    }

    /// Runtime check of `valid`, for callers that assemble a problem from
    /// unchecked input.
    pub fn check_valid(&self) -> (b: bool)
        ensures
            b == self.valid(),
    {
        if !(0 < self.bin_width && 0 < self.bin_height) {
            return false;
        }
        let area_ok = self.bin_width <= i32::MAX / self.bin_height;
        proof {
            assert(area_ok == (self.bin_width * self.bin_height <= i32::MAX)) by (nonlinear_arith)
                requires
                    0 < self.bin_height,
                    area_ok == (self.bin_width <= i32::MAX as int / self.bin_height as int),
            ;
        }
        if !area_ok {
            return false;
        }
        let mut i: usize = 0;
        while i < self.rectangles.len()
            invariant
                0 <= i <= self.rectangles@.len(),
                forall|j: int|
                    0 <= j < i ==> 0 < (#[trigger] self.rectangles@[j]).width && 0
                        < self.rectangles@[j].height,
            decreases self.rectangles@.len() - i,
        {
            let r = self.rectangles[i];
            if !(0 < r.width && 0 < r.height) {
                return false;
            }
            i = i + 1;
        }
        true
    }
}

/// One item record of a problem description: a `length` by `height` shape
/// wanted `demand` times.
#[derive(Clone, Copy, Debug, PartialEq, Eq, Structural)]
pub struct ItemRecord {
    pub length: i32,
    pub height: i32,
    pub demand: i32,
}

/// `n` copies of one rectangle.
pub open spec fn spec_repeat(r: Rect, n: int) -> Seq<Rect>
    decreases n,
{
    if n <= 0 {
        Seq::empty()
    } else {
        spec_repeat(r, n - 1).push(r)
    }
}

/// The rectangle list an item-record list expands to: each record
/// contributes `demand` unplaced copies of its shape (none when the demand
/// is not positive), in record order.
pub open spec fn spec_expand(items: Seq<ItemRecord>) -> Seq<Rect>
    decreases items.len(),
{
    if items.len() == 0 {
        Seq::empty()
    } else {
        spec_expand(items.drop_last()) + spec_repeat(
            Rect { x: 0, y: 0, width: items.last().length, height: items.last().height },
            items.last().demand as int,
        )
    }
}

/// Assemble a problem from a bin size and item records, expanding each
/// record's demand into that many copies of its shape.
pub fn build_problem(bin_width: i32, bin_height: i32, items: &Vec<ItemRecord>) -> (p: Problem)
    ensures
        p.bin_width == bin_width,
        p.bin_height == bin_height,
        p.rectangles@ == spec_expand(items@),
{
    let mut rectangles: Vec<Rect> = Vec::new();
    let mut i: usize = 0;
    while i < items.len()
        invariant
            i <= items@.len(),
            rectangles@ == spec_expand(items@.take(i as int)),
        decreases items@.len() - i,
    {
        let record = items[i];
        let shape = Rect { x: 0, y: 0, width: record.length, height: record.height };
        let mut d: i32 = 0;
        while d < record.demand
            invariant
                0 <= d,
                record.demand > 0 ==> d <= record.demand,
                record.demand <= 0 ==> d == 0,
                rectangles@ == spec_expand(items@.take(i as int)) + spec_repeat(shape, d as int),
            decreases record.demand - d,
        {
            rectangles.push(shape);
            d = d + 1;
        }
        proof {
            assert(items@.take(i + 1).drop_last() =~= items@.take(i as int));
            assert(items@.take(i + 1).last() == items@[i as int]);
            assert(rectangles@ =~= spec_expand(items@.take(i + 1)));
        }
        i = i + 1;
    }
    proof {
        assert(items@.take(items@.len() as int) =~= items@);
    }
    Problem { bin_width, bin_height, rectangles }
}

} // verus!
