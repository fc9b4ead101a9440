//! Area accounting for placements. The key fact behind the fitness bound:
//! pairwise non-overlapping rectangles lying inside the bin cover at most
//! the bin's area. Each rectangle is mapped to the set of unit cells it
//! covers (a cell at column `x`, row `y` has id `x * bin_h + y`); disjoint
//! rectangles cover disjoint cell sets, all inside the bin's cell range.

use vstd::prelude::*;

use vstd::arithmetic::div_mod::{lemma_fundamental_div_mod, lemma_fundamental_div_mod_converse};
use vstd::arithmetic::mul::lemma_mul_inequality;
use vstd::set_lib::{
    lemma_int_range, lemma_len_subset, lemma_set_disjoint_lens, lemma_subset_equality,
    set_int_range,
};

use crate::geometry::{rect_within_bin, spec_overlap, Rect};

verus! {

/// The ids of the unit cells covered by `r`, for a bin of height `bin_h`:
/// all `c` whose column `c / bin_h` and row `c % bin_h` fall inside `r`.
pub open spec fn rect_cells(r: Rect, bin_h: int) -> Set<int> {
    Set::new(
        |c: int|
            r.x <= c / bin_h < r.x + r.width && r.y <= c % bin_h < r.y + r.height,
    )
}

/// Sum of the areas of a sequence of rectangles.
pub open spec fn sum_areas(s: Seq<Rect>) -> int
    decreases s.len(),
{
    if s.len() == 0 {
        0
    } else {
        sum_areas(s.drop_last()) + s.last().spec_area()
    }
}

/// A rectangle that fits vertically inside the bin covers exactly
/// `width * height` cells.
pub proof fn lemma_rect_cells_card(r: Rect, bin_h: int)
    requires
        0 < bin_h,
        0 <= r.x,
        0 <= r.y,
        0 <= r.width,
        0 <= r.height,
        r.y + r.height <= bin_h,
    ensures
        rect_cells(r, bin_h).finite(),
        rect_cells(r, bin_h).len() == r.width * r.height,
    decreases r.width,
{
    if r.width == 0 {
        assert(rect_cells(r, bin_h) =~= Set::<int>::empty());
    } else {
        let r2 = Rect { x: r.x, y: r.y, width: (r.width - 1) as i32, height: r.height };
        lemma_rect_cells_card(r2, bin_h);
        let xcol = r.x + r.width - 1;
        let lo = xcol * bin_h + r.y;
        let hi = lo + r.height;
        let col = set_int_range(lo, hi);
        lemma_int_range(lo, hi);
        assert forall|c: int| col.contains(c) implies rect_cells(r, bin_h).contains(c)
            && !rect_cells(r2, bin_h).contains(c) by {
            lemma_fundamental_div_mod_converse(c, bin_h, xcol, c - xcol * bin_h);
        }
        assert forall|c: int| rect_cells(r, bin_h).contains(c) && !col.contains(c) implies
            rect_cells(r2, bin_h).contains(c) by {
            lemma_fundamental_div_mod(c, bin_h);
            if c / bin_h == xcol {
                assert(c == bin_h * xcol + c % bin_h);
                assert(bin_h * xcol == xcol * bin_h) by (nonlinear_arith);
                assert(col.contains(c));
            }
        }
        assert(rect_cells(r, bin_h) =~= rect_cells(r2, bin_h) + col);
        assert(rect_cells(r2, bin_h).disjoint(col));
        lemma_set_disjoint_lens(rect_cells(r2, bin_h), col);
        assert((r.width - 1) * r.height + r.height == r.width * r.height) by (nonlinear_arith);
    }
}

/// Every cell of a rectangle inside the bin lies in the bin's cell range.
pub proof fn lemma_rect_cells_in_bin(r: Rect, bin_w: int, bin_h: int)
    requires
        0 < bin_w,
        0 < bin_h,
        rect_within_bin(r, bin_w, bin_h),
    ensures
        rect_cells(r, bin_h).subset_of(set_int_range(0, bin_w * bin_h)),
{
    assert forall|c: int| rect_cells(r, bin_h).contains(c) implies set_int_range(
        0,
        bin_w * bin_h,
    ).contains(c) by {
        lemma_fundamental_div_mod(c, bin_h);
        let q = c / bin_h;
        let m = c % bin_h;
        assert(c == bin_h * q + m);
        assert(bin_h * q == q * bin_h) by (nonlinear_arith);
        assert(0 <= q && 0 <= m < bin_h);
        assert(q * bin_h >= 0) by (nonlinear_arith)
            requires
                q >= 0,
                bin_h > 0,
        ;
        lemma_mul_inequality(q, bin_w - 1, bin_h);
        assert((bin_w - 1) * bin_h == bin_w * bin_h - bin_h) by (nonlinear_arith);
    }
}

/// Non-overlapping rectangles cover disjoint cell sets.
pub proof fn lemma_no_overlap_disjoint_cells(a: Rect, b: Rect, bin_h: int)
    requires
        0 < bin_h,
        !spec_overlap(a, b),
    ensures
        rect_cells(a, bin_h).disjoint(rect_cells(b, bin_h)),
{
    assert forall|c: int| rect_cells(a, bin_h).contains(c) implies !rect_cells(
        b,
        bin_h,
    ).contains(c) by {}
}

/// The cells of every rectangle in `s`, together.
pub open spec fn cells_of(s: Seq<Rect>, bin_h: int) -> Set<int>
    decreases s.len(),
{
    if s.len() == 0 {
        Set::empty()
    } else {
        cells_of(s.drop_last(), bin_h) + rect_cells(s.last(), bin_h)
    }
}

/// A rectangle overlapping none of `s` covers cells disjoint from all of
/// `s`'s cells.
pub proof fn lemma_cells_of_disjoint(s: Seq<Rect>, b: Rect, bin_h: int)
    requires
        0 < bin_h,
        forall|i: int| 0 <= i < s.len() ==> !spec_overlap(#[trigger] s[i], b),
    ensures
        cells_of(s, bin_h).disjoint(rect_cells(b, bin_h)),
    decreases s.len(),
{
    if s.len() > 0 {
        lemma_cells_of_disjoint(s.drop_last(), b, bin_h);
        lemma_no_overlap_disjoint_cells(s.last(), b, bin_h);
    }
}

/// Counting cells: pairwise-disjoint rectangles inside the bin cover
/// exactly `sum_areas` cells, all within the bin's cell range.
pub proof fn lemma_cells_of_card(s: Seq<Rect>, bin_w: int, bin_h: int)
    requires
        0 < bin_w,
        0 < bin_h,
        forall|i: int| 0 <= i < s.len() ==> rect_within_bin(#[trigger] s[i], bin_w, bin_h),
        forall|i: int, j: int| 0 <= i < j < s.len() ==> !spec_overlap(#[trigger] s[i], #[trigger] s[j]),
    ensures
        cells_of(s, bin_h).finite(),
        cells_of(s, bin_h).len() == sum_areas(s),
        cells_of(s, bin_h).subset_of(set_int_range(0, bin_w * bin_h)),
    decreases s.len(),
{
    if s.len() > 0 {
        let pre = s.drop_last();
        let b = s.last();
        lemma_cells_of_card(pre, bin_w, bin_h);
        lemma_rect_cells_card(b, bin_h);
        lemma_rect_cells_in_bin(b, bin_w, bin_h);
        lemma_cells_of_disjoint(pre, b, bin_h);
        lemma_set_disjoint_lens(cells_of(pre, bin_h), rect_cells(b, bin_h));
    }
}

/// The total area of pairwise non-overlapping rectangles inside the bin is
/// between zero and the bin's area.
pub proof fn lemma_disjoint_area_bound(s: Seq<Rect>, bin_w: int, bin_h: int)
    requires
        0 < bin_w,
        0 < bin_h,
        forall|i: int| 0 <= i < s.len() ==> rect_within_bin(#[trigger] s[i], bin_w, bin_h),
        forall|i: int, j: int| 0 <= i < j < s.len() ==> !spec_overlap(#[trigger] s[i], #[trigger] s[j]),
    ensures
        0 <= sum_areas(s) <= bin_w * bin_h,
{
    lemma_cells_of_card(s, bin_w, bin_h);
    lemma_int_range(0, bin_w * bin_h);
    lemma_len_subset(cells_of(s, bin_h), set_int_range(0, bin_w * bin_h));
}

/// Some rectangle of `s` covers the unit cell at column `x`, row `y`.
pub open spec fn covers_point(s: Seq<Rect>, x: int, y: int) -> bool {
    exists|i: int|
        0 <= i < s.len() && (#[trigger] s[i]).x <= x < s[i].x + s[i].width && s[i].y <= y < s[i].y
            + s[i].height
}

/// A covered cell belongs to some rectangle of the sequence.
pub proof fn lemma_cells_of_member(s: Seq<Rect>, bin_h: int, c: int)
    requires
        cells_of(s, bin_h).contains(c),
    ensures
        exists|i: int| 0 <= i < s.len() && rect_cells(#[trigger] s[i], bin_h).contains(c),
    decreases s.len(),
{
    if s.len() == 0 {
        assert(false);
    } else if rect_cells(s.last(), bin_h).contains(c) {
        assert(rect_cells(s[s.len() - 1], bin_h).contains(c));
    } else {
        lemma_cells_of_member(s.drop_last(), bin_h, c);
        let i = choose|i: int|
            0 <= i < s.drop_last().len() && rect_cells(
                #[trigger] s.drop_last()[i],
                bin_h,
            ).contains(c);
        assert(rect_cells(s[i], bin_h).contains(c));
    }
}

/// The converse of the area bound: when the placed area equals the bin
/// area, the placements tile the bin exactly — every cell of the bin is
/// covered by some placed rectangle.
pub proof fn lemma_full_area_tiles_bin(s: Seq<Rect>, bin_w: int, bin_h: int, x: int, y: int)
    requires
        0 < bin_w,
        0 < bin_h,
        forall|i: int| 0 <= i < s.len() ==> rect_within_bin(#[trigger] s[i], bin_w, bin_h),
        forall|i: int, j: int| 0 <= i < j < s.len() ==> !spec_overlap(#[trigger] s[i], #[trigger] s[j]),
        sum_areas(s) == bin_w * bin_h,
        0 <= x < bin_w,
        0 <= y < bin_h,
    ensures
        covers_point(s, x, y),
{
    lemma_cells_of_card(s, bin_w, bin_h);
    lemma_int_range(0, bin_w * bin_h);
    lemma_subset_equality(cells_of(s, bin_h), set_int_range(0, bin_w * bin_h));
    let c = x * bin_h + y;
    assert(0 <= x * bin_h && x * bin_h <= (bin_w - 1) * bin_h) by (nonlinear_arith)
        requires
            0 <= x <= bin_w - 1,
            0 < bin_h,
    ;
    assert((bin_w - 1) * bin_h == bin_w * bin_h - bin_h) by (nonlinear_arith);
    assert(set_int_range(0, bin_w * bin_h).contains(c));
    assert(cells_of(s, bin_h).contains(c));
    lemma_cells_of_member(s, bin_h, c);
    let i = choose|i: int| 0 <= i < s.len() && rect_cells(#[trigger] s[i], bin_h).contains(c);
    lemma_fundamental_div_mod_converse(c, bin_h, x, y);
    assert(s[i].x <= x < s[i].x + s[i].width && s[i].y <= y < s[i].y + s[i].height);
}

/// With every rectangle of positive extent, the total area is zero exactly
/// when there is no rectangle at all.
pub proof fn lemma_sum_areas_zero_iff_empty(s: Seq<Rect>)
    requires
        forall|i: int|
            0 <= i < s.len() ==> 0 < (#[trigger] s[i]).width && 0 < s[i].height,
    ensures
        s.len() == 0 ==> sum_areas(s) == 0,
        s.len() > 0 ==> sum_areas(s) > 0,
    decreases s.len(),
{
    if s.len() > 0 {
        lemma_sum_areas_zero_iff_empty(s.drop_last());
        assert(0 < s.last().width * s.last().height) by (nonlinear_arith)
            requires
                0 < s.last().width,
                0 < s.last().height,
        ;
    }
}

/// One more rectangle in a prefix adds exactly its area.
pub proof fn lemma_sum_areas_take_step(s: Seq<Rect>, k: int)
    requires
        0 <= k < s.len(),
    ensures
        sum_areas(s.take(k + 1)) == sum_areas(s.take(k)) + s[k].spec_area(),
{
    assert(s.take(k + 1).drop_last() =~= s.take(k));
    assert(s.take(k + 1).last() == s[k]);
}

/// With nonnegative areas, a prefix never outweighs the whole sequence.
pub proof fn lemma_sum_areas_take_bound(s: Seq<Rect>, k: int)
    requires
        0 <= k <= s.len(),
        forall|i: int| 0 <= i < s.len() ==> 0 <= (#[trigger] s[i]).spec_area(),
    ensures
        sum_areas(s.take(k)) <= sum_areas(s),
    decreases s.len() - k,
{
    if k == s.len() {
        assert(s.take(k) =~= s);
    } else {
        lemma_sum_areas_take_step(s, k);
        lemma_sum_areas_take_bound(s, k + 1);
    }
}

} // verus!
