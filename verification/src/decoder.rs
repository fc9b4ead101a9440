//! The packing decoder: turns one binary encoding plus a problem definition
//! into a concrete non-overlapping layout and an exact fitness value, by
//! greedy best-area-fit placement over a guillotine-split free-rectangle
//! list.

use vstd::prelude::*;

use crate::area::{
    covers_point, lemma_disjoint_area_bound, lemma_full_area_tiles_bin,
    lemma_sum_areas_take_bound, lemma_sum_areas_take_step, lemma_sum_areas_zero_iff_empty,
    sum_areas,
};
use crate::geometry::{
    rect_sums_bounded, rect_within_bin, rectangles_overlap, spec_contains_rect, spec_overlap,
    Problem, Rect,
};

verus! {

/// Running state of the best-area-fit scan: index and shape of the best
/// candidate so far, and its score (free area minus item area; lower is
/// better, `i32::MAX` while no candidate has been seen).
pub struct BestFitState {
    pub idx: Option<int>,
    pub diff: int,
    pub rect: Option<Rect>,
}

/// One scan step of the best-area-fit search: try the item unrotated, then
/// rotated by 90 degrees, in free rectangle `free` (at position `idx` in the
/// free list). A candidate wins only with a strictly smaller score, so the
/// earliest candidate is kept on ties, and the unrotated orientation is
/// preferred within one free rectangle.
pub open spec fn bf_step(st: BestFitState, free: Rect, idx: int, w: i32, h: i32) -> BestFitState {
    let diff = free.spec_area() - w * h;
    let st1 = if free.width >= w && free.height >= h && diff < st.diff {
        BestFitState { idx: Some(idx), diff, rect: Some(Rect { x: free.x, y: free.y, width: w, height: h }) }
    } else {
        st
    };
    if free.width >= h && free.height >= w && diff < st1.diff {
        BestFitState { idx: Some(idx), diff, rect: Some(Rect { x: free.x, y: free.y, width: h, height: w }) }
    } else {
        st1
    }
}

/// The scan state after the first `n` free rectangles have been considered.
pub open spec fn bf_prefix(free: Seq<Rect>, w: i32, h: i32, n: int) -> BestFitState
    decreases n,
{
    if n <= 0 {
        BestFitState { idx: None, diff: i32::MAX as int, rect: None }
    } else {
        bf_step(bf_prefix(free, w, h, n - 1), free[n - 1], n - 1, w, h)
    }
}

/// What `find_best_area_fit` returns: the index of the chosen free
/// rectangle and the proposed placement (position at that free rectangle's
/// corner, extent either orientation of the item), or `None` when no free
/// rectangle admits the item in either orientation.
pub open spec fn spec_find_best_fit(free: Seq<Rect>, w: i32, h: i32) -> Option<(int, Rect)> {
    let st = bf_prefix(free, w, h, free.len() as int);
    match (st.idx, st.rect) {
        (Some(i), Some(r)) => Some((i, r)),
        _ => None,
    }
}

/// The scan state is internally consistent: index and rectangle are present
/// together, the index points into the list, and the proposed rectangle
/// sits at its free rectangle's corner, fits inside it, and is one of the
/// two orientations of the item.
pub open spec fn bf_state_ok(st: BestFitState, free: Seq<Rect>, w: i32, h: i32, n: int) -> bool {
    match (st.idx, st.rect) {
        (Some(i), Some(r)) => {
            &&& 0 <= i < n
            &&& r.x == free[i].x
            &&& r.y == free[i].y
            &&& (r.width == w && r.height == h) || (r.width == h && r.height == w)
            &&& r.width <= free[i].width
            &&& r.height <= free[i].height
        },
        (None, None) => true,
        _ => false,
    }
}

/// By induction over the scan: every intermediate state is consistent.
pub proof fn lemma_bf_prefix_ok(free: Seq<Rect>, w: i32, h: i32, n: int)
    requires
        n <= free.len(),
    ensures
        bf_state_ok(bf_prefix(free, w, h, n), free, w, h, n),
    decreases n,
{
    if n > 0 {
        lemma_bf_prefix_ok(free, w, h, n - 1);
    }
}

/// The chosen placement of a successful best-area-fit search fits inside
/// the free rectangle it was carved from.
pub proof fn lemma_best_fit_fits(free: Seq<Rect>, w: i32, h: i32)
    requires
        spec_find_best_fit(free, w, h) is Some,
    ensures
        ({
            let (i, r) = spec_find_best_fit(free, w, h)->Some_0;
            &&& 0 <= i < free.len()
            &&& r.x == free[i].x
            &&& r.y == free[i].y
            &&& (r.width == w && r.height == h) || (r.width == h && r.height == w)
            &&& r.width <= free[i].width
            &&& r.height <= free[i].height
        }),
{
    lemma_bf_prefix_ok(free, w, h, free.len() as int);
}

/// Best-area-fit search: scan the free list, testing both orientations of a
/// `rect_width` by `rect_height` item against every free rectangle, and
/// keep the candidate whose free rectangle wastes the least area. Returns
/// `None` when the item fits nowhere.
pub fn find_best_area_fit(free_rects: &Vec<Rect>, rect_width: i32, rect_height: i32) -> (r: Option<
    (usize, Rect),
>)
    requires
        0 <= rect_width,
        0 <= rect_height,
        forall|k: int|
            0 <= k < free_rects@.len() ==> {
                &&& 0 <= (#[trigger] free_rects@[k]).width
                &&& 0 <= free_rects@[k].height
                &&& free_rects@[k].spec_area() <= i32::MAX
            },
    ensures
        match r {
            Some((i, rr)) => spec_find_best_fit(free_rects@, rect_width, rect_height) == Some(
                (i as int, rr),
            ),
            None => spec_find_best_fit(free_rects@, rect_width, rect_height) is None,
        },
{
    let mut best_idx: Option<usize> = None;
    let mut best_area_diff: i32 = i32::MAX;
    let mut best_rect: Option<Rect> = None;

    let mut idx: usize = 0;
    while idx < free_rects.len()
        invariant
            0 <= rect_width,
            0 <= rect_height,
            forall|k: int|
                0 <= k < free_rects@.len() ==> {
                    &&& 0 <= (#[trigger] free_rects@[k]).width
                    &&& 0 <= free_rects@[k].height
                    &&& free_rects@[k].spec_area() <= i32::MAX
                },
            0 <= idx <= free_rects@.len(),
            ({
                let st = bf_prefix(free_rects@, rect_width, rect_height, idx as int);
                &&& st.diff == best_area_diff as int
                &&& st.rect == best_rect
                &&& match (st.idx, best_idx) {
                    (Some(a), Some(b)) => a == b as int,
                    (None, None) => true,
                    _ => false,
                }
            }),
        decreases free_rects@.len() - idx,
    {
        let free_rect = free_rects[idx];
        if free_rect.contains(rect_width, rect_height) {
            let placed = Rect { x: free_rect.x, y: free_rect.y, width: rect_width, height: rect_height };
            proof {
                assert(rect_width * rect_height <= free_rect.spec_area()) by (nonlinear_arith)
                    requires
                        0 <= rect_width <= free_rect.width,
                        0 <= rect_height <= free_rect.height,
                        free_rect.spec_area() == free_rect.width * free_rect.height,
                ;
                assert(rect_width * rect_height >= 0) by (nonlinear_arith)
                    requires
                        0 <= rect_width,
                        0 <= rect_height,
                ;
            }
            let area_diff = free_rect.area() - rect_width * rect_height;
            if area_diff < best_area_diff {
                best_area_diff = area_diff;
                best_idx = Some(idx);
                best_rect = Some(placed);
            }
        }
        if free_rect.contains(rect_height, rect_width) {
            let placed = Rect { x: free_rect.x, y: free_rect.y, width: rect_height, height: rect_width };
            proof {
                assert(rect_width * rect_height <= free_rect.spec_area() && rect_width
                    * rect_height >= 0) by (nonlinear_arith)
                    requires
                        0 <= rect_height <= free_rect.width,
                        0 <= rect_width <= free_rect.height,
                        free_rect.spec_area() == free_rect.width * free_rect.height,
                ;
            }
            let area_diff = free_rect.area() - rect_width * rect_height;
            if area_diff < best_area_diff {
                best_area_diff = area_diff;
                best_idx = Some(idx);
                best_rect = Some(placed);
            }
        }
        idx = idx + 1;
    }
    match (best_idx, best_rect) {
        (Some(i), Some(r)) => Some((i, r)),
        _ => None,
    }
}

/// A rectangle fully inside a valid bin has a nonnegative area no larger
/// than the bin's.
pub proof fn lemma_in_bin_area(r: Rect, bin_w: int, bin_h: int)
    requires
        rect_within_bin(r, bin_w, bin_h),
        0 < bin_w,
        0 < bin_h,
    ensures
        0 < r.spec_area() <= bin_w * bin_h,
{
    assert(0 < r.width * r.height <= bin_w * bin_h) by (nonlinear_arith)
        requires
            0 < r.width <= bin_w,
            0 < r.height <= bin_h,
    ;
}

/// The free list after a placement consumed the free rectangle at
/// `used_idx`: the consumed rectangle is removed, and up to two leftover
/// strips are appended — the strip to the right of the placement, then the
/// strip below it, each kept only when it is non-empty and lies within the
/// bin.
pub open spec fn spec_split(
    free: Seq<Rect>,
    used_idx: int,
    placed: Rect,
    bin_w: i32,
    bin_h: i32,
) -> Seq<Rect> {
    let used = free[used_idx];
    let s0 = free.remove(used_idx);
    let right = Rect {
        x: (placed.x + placed.width) as i32,
        y: used.y,
        width: ((used.x + used.width) - (placed.x + placed.width)) as i32,
        height: used.height,
    };
    let s1 = if placed.x + placed.width < used.x + used.width && right.x + right.width <= bin_w
        && right.y + right.height <= bin_h {
        s0.push(right)
    } else {
        s0
    };
    let bottom = Rect {
        x: used.x,
        y: (placed.y + placed.height) as i32,
        width: used.width,
        height: ((used.y + used.height) - (placed.y + placed.height)) as i32,
    };
    if placed.y + placed.height < used.y + used.height && bottom.x + bottom.width <= bin_w
        && bottom.y + bottom.height <= bin_h {
        s1.push(bottom)
    } else {
        s1
    }
}

/// Replace the consumed free rectangle by the leftover right-hand and
/// bottom strips of the guillotine split, clipped to the bin.
pub fn split_free_rect(
    free_rects: &mut Vec<Rect>,
    used_idx: usize,
    placed: &Rect,
    bin_width: i32,
    bin_height: i32,
)
    requires
        0 < bin_width,
        0 < bin_height,
        used_idx < old(free_rects)@.len(),
        forall|k: int|
            0 <= k < old(free_rects)@.len() ==> rect_within_bin(
                #[trigger] old(free_rects)@[k],
                bin_width as int,
                bin_height as int,
            ),
        rect_within_bin(*placed, bin_width as int, bin_height as int),
    ensures
        final(free_rects)@ == spec_split(
            old(free_rects)@,
            used_idx as int,
            *placed,
            bin_width,
            bin_height,
        ),
        forall|k: int|
            0 <= k < final(free_rects)@.len() ==> rect_within_bin(
                #[trigger] final(free_rects)@[k],
                bin_width as int,
                bin_height as int,
            ),
{
    let used_rect = free_rects.remove(used_idx);

    if placed.x + placed.width < used_rect.x + used_rect.width {
        let new_rect = Rect {
            x: placed.x + placed.width,
            y: used_rect.y,
            width: (used_rect.x + used_rect.width) - (placed.x + placed.width),
            height: used_rect.height,
        };
        if new_rect.x + new_rect.width <= bin_width && new_rect.y + new_rect.height <= bin_height {
            free_rects.push(new_rect);
        }
    }

    if placed.y + placed.height < used_rect.y + used_rect.height {
        let new_rect = Rect {
            x: used_rect.x,
            y: placed.y + placed.height,
            width: used_rect.width,
            height: (used_rect.y + used_rect.height) - (placed.y + placed.height),
        };
        if new_rect.x + new_rect.width <= bin_width && new_rect.y + new_rect.height <= bin_height {
            free_rects.push(new_rect);
        }
    }
}

/// Nested containment-pruning scan, mirrored by `prune_free_rects`. The
/// outer cursor `i` compares its rectangle against every later one at `j`:
/// a rectangle contained in another is removed (the one at `i` restarts the
/// inner scan; a removal at `j` rescans the shifted position).
pub open spec fn spec_prune_from(s: Seq<Rect>, i: int, j: int) -> Seq<Rect>
    decreases 2 * s.len() - i, s.len() - j,
{
    if i < 0 || j < i + 1 || s.len() > usize::MAX {
        s  // outside the states the scan visits
    } else if i >= s.len() {
        s
    } else if j >= s.len() {
        spec_prune_from(s, i + 1, i + 2)
    } else if spec_contains_rect(s[j], s[i]) {
        spec_prune_from(s.remove(i), i, i + 1)
    } else if spec_contains_rect(s[i], s[j]) {
        spec_prune_from(s.remove(j), i, j)
    } else {
        spec_prune_from(s, i, j + 1)
    }
}

/// The free list after containment pruning: no free rectangle fully
/// contained in another survives.
pub open spec fn spec_prune(s: Seq<Rect>) -> Seq<Rect> {
    spec_prune_from(s, 0, 1)
}

/// Removing an element keeps every remaining element an element of the
/// sequence it came from.
pub proof fn lemma_remove_keeps_elements(s: Seq<Rect>, i: int)
    requires
        0 <= i < s.len(),
    ensures
        forall|x: Rect| s.remove(i).contains(x) ==> s.contains(x),
{
    assert forall|x: Rect| s.remove(i).contains(x) implies s.contains(x) by {
        let k = choose|k: int| 0 <= k < s.remove(i).len() && s.remove(i)[k] == x;
        if k < i {
            assert(s[k] == x);
        } else {
            assert(s[k + 1] == x);
        }
    }
}

/// Pruning only removes rectangles: every survivor was in the input list.
pub proof fn lemma_prune_keeps_elements(s: Seq<Rect>, i: int, j: int)
    ensures
        forall|x: Rect| spec_prune_from(s, i, j).contains(x) ==> s.contains(x),
    decreases 2 * s.len() - i, s.len() - j,
{
    if i < 0 || j < i + 1 || s.len() > usize::MAX || i >= s.len() {
    } else if j >= s.len() {
        lemma_prune_keeps_elements(s, i + 1, i + 2);
    } else if spec_contains_rect(s[j], s[i]) {
        lemma_prune_keeps_elements(s.remove(i), i, i + 1);
        lemma_remove_keeps_elements(s, i);
    } else if spec_contains_rect(s[i], s[j]) {
        lemma_prune_keeps_elements(s.remove(j), i, j);
        lemma_remove_keeps_elements(s, j);
    } else {
        lemma_prune_keeps_elements(s, i, j + 1);
    }
}

/// Remove every free rectangle fully contained within another (containment
/// means all four bounding edges inside-or-equal), by a pairwise scan that
/// rescans after each removal.
pub fn prune_free_rects(free_rects: &mut Vec<Rect>)
    requires
        forall|k: int|
            0 <= k < old(free_rects)@.len() ==> rect_sums_bounded(#[trigger] old(free_rects)@[k]),
    ensures
        final(free_rects)@ == spec_prune(old(free_rects)@),
{
    let ghost target = spec_prune(old(free_rects)@);
    let mut i: usize = 0;
    while i < free_rects.len()
        invariant
            forall|k: int|
                0 <= k < free_rects@.len() ==> rect_sums_bounded(#[trigger] free_rects@[k]),
            i <= free_rects@.len(),
            spec_prune_from(free_rects@, i as int, i + 1) == target,
        decreases 2 * free_rects@.len() - i,
    {
        let ghost len0 = free_rects@.len();
        let mut j: usize = i + 1;
        let mut remove_i = false;
        while j < free_rects.len() && !remove_i
            invariant
                forall|k: int|
                    0 <= k < free_rects@.len() ==> rect_sums_bounded(#[trigger] free_rects@[k]),
                i < free_rects@.len() <= len0,
                i + 1 <= j <= free_rects@.len(),
                !remove_i ==> spec_prune_from(free_rects@, i as int, j as int) == target,
                remove_i ==> spec_prune_from(free_rects@.remove(i as int), i as int, i + 1)
                    == target,
            decreases free_rects@.len() - j, 1int - (if remove_i { 1int } else { 0int }),
        {
            let ri = free_rects[i];
            let rj = free_rects[j];
            if is_contained_in(&ri, &rj) {
                remove_i = true;
            } else if is_contained_in(&rj, &ri) {
                free_rects.remove(j);
            } else {
                j = j + 1;
            }
        }
        if remove_i {
            free_rects.remove(i);
        } else {
            i = i + 1;
        }
    }
}

/// An individual's score: the exact rational `used / total`, the fraction
/// of the bin's area covered by the placed rectangles. It always lies in
/// [0, 1]. `total` is the bin's area, fixed per problem, so fitness values
/// of one run compare by `used` alone.
#[derive(Clone, Copy, Debug, PartialEq, Eq, Structural)]
pub struct Fitness {
    pub used: i32,
    pub total: i32,
}

impl Fitness {
    /// The fraction is well formed and lies in [0, 1].
    pub open spec fn valid(self) -> bool {
        0 <= self.used <= self.total && 0 < self.total
    }
}

/// Ghost state of one decode pass: the rectangles placed so far, and the
/// current free-rectangle list.
pub struct DecodeState {
    pub placed: Seq<Rect>,
    pub free: Seq<Rect>,
}

/// One gene of the decode pass. A zero gene skips its item. Otherwise the
/// best-area-fit placement is proposed, re-checked against the bin bounds
/// and the already-placed rectangles, and committed only when both checks
/// pass (an item that fits nowhere, or whose proposal fails a check, is
/// silently dropped: that is the fitness penalty, not an error). A commit
/// appends the placement, splits the consumed free rectangle and prunes the
/// free list.
pub open spec fn spec_decode_step(
    st: DecodeState,
    gene: u8,
    item: Rect,
    bin_w: i32,
    bin_h: i32,
) -> DecodeState {
    if gene == 0 {
        st
    } else {
        match spec_find_best_fit(st.free, item.width, item.height) {
            Option::None => st,
            Option::Some((idx, placed)) => {
                let within = placed.x + placed.width <= bin_w && placed.y + placed.height <= bin_h;
                let no_overlap = forall|k: int|
                    0 <= k < st.placed.len() ==> !spec_overlap(placed, #[trigger] st.placed[k]);
                if within && no_overlap {
                    DecodeState {
                        placed: st.placed.push(placed),
                        free: spec_prune(spec_split(st.free, idx, placed, bin_w, bin_h)),
                    }
                } else {
                    st
                }
            },
        }
    }
}

/// The decode state after the first `n` genes, starting from an empty
/// layout and one free rectangle covering the whole bin. Genes beyond the
/// item list are ignored.
pub open spec fn spec_decode_prefix(
    chrom: Seq<u8>,
    items: Seq<Rect>,
    bin_w: i32,
    bin_h: i32,
    n: int,
) -> DecodeState
    decreases n,
{
    if n <= 0 {
        DecodeState {
            placed: Seq::empty(),
            free: seq![Rect { x: 0, y: 0, width: bin_w, height: bin_h }],
        }
    } else {
        let st = spec_decode_prefix(chrom, items, bin_w, bin_h, n - 1);
        if n - 1 < items.len() {
            spec_decode_step(st, chrom[n - 1], items[n - 1], bin_w, bin_h)
        } else {
            st
        }
    }
}

/// The full decode of one encoding against one problem: a pure function of
/// its two arguments, which is what makes decoding deterministic.
pub open spec fn spec_decode(chrom: Seq<u8>, p: Problem) -> DecodeState {
    spec_decode_prefix(chrom, p.rectangles@, p.bin_width, p.bin_height, chrom.len() as int)
}

/// The fitness numerator of one encoding: total area of its placements.
pub open spec fn spec_fitness(chrom: Seq<u8>, p: Problem) -> int {
    sum_areas(spec_decode(chrom, p).placed)
}

/// Everything a decode state guarantees: free rectangles and placements
/// all lie within the bin, and placements are pairwise non-overlapping.
pub open spec fn decode_inv(st: DecodeState, bin_w: i32, bin_h: i32) -> bool {
    &&& forall|k: int|
        0 <= k < st.free.len() ==> rect_within_bin(#[trigger] st.free[k], bin_w as int, bin_h as int)
    &&& forall|k: int|
        0 <= k < st.placed.len() ==> rect_within_bin(
            #[trigger] st.placed[k],
            bin_w as int,
            bin_h as int,
        )
    &&& forall|k: int, l: int|
        0 <= k < l < st.placed.len() ==> !spec_overlap(
            #[trigger] st.placed[k],
            #[trigger] st.placed[l],
        )
}

/// Splitting a consumed free rectangle keeps every free rectangle within
/// the bin: the leftover strips inherit their edges from the consumed
/// rectangle and the placement, and carry their own clip check.
pub proof fn lemma_split_in_bin(free: Seq<Rect>, idx: int, placed: Rect, bin_w: i32, bin_h: i32)
    requires
        0 <= idx < free.len(),
        forall|k: int|
            0 <= k < free.len() ==> rect_within_bin(#[trigger] free[k], bin_w as int, bin_h as int),
        rect_within_bin(placed, bin_w as int, bin_h as int),
    ensures
        forall|k: int|
            0 <= k < spec_split(free, idx, placed, bin_w, bin_h).len() ==> rect_within_bin(
                #[trigger] spec_split(free, idx, placed, bin_w, bin_h)[k],
                bin_w as int,
                bin_h as int,
            ),
{
    let s0 = free.remove(idx);
    assert(forall|k: int|
        0 <= k < s0.len() ==> rect_within_bin(#[trigger] s0[k], bin_w as int, bin_h as int));
}

/// Pruning keeps every free rectangle within the bin, because it only ever
/// removes rectangles.
pub proof fn lemma_prune_in_bin(s: Seq<Rect>, bin_w: i32, bin_h: i32)
    requires
        forall|k: int|
            0 <= k < s.len() ==> rect_within_bin(#[trigger] s[k], bin_w as int, bin_h as int),
    ensures
        forall|k: int|
            0 <= k < spec_prune(s).len() ==> rect_within_bin(
                #[trigger] spec_prune(s)[k],
                bin_w as int,
                bin_h as int,
            ),
{
    lemma_prune_keeps_elements(s, 0, 1);
    assert forall|k: int| 0 <= k < spec_prune(s).len() implies rect_within_bin(
        #[trigger] spec_prune(s)[k],
        bin_w as int,
        bin_h as int,
    ) by {
        let x = spec_prune(s)[k];
        assert(spec_prune(s).contains(x));
        assert(s.contains(x));
        let m = choose|m: int| 0 <= m < s.len() && s[m] == x;
        assert(rect_within_bin(s[m], bin_w as int, bin_h as int));
    }
}

/// By induction over the genes: every intermediate decode state keeps all
/// rectangles within the bin and all placements pairwise non-overlapping.
pub proof fn lemma_decode_prefix_inv(chrom: Seq<u8>, items: Seq<Rect>, bin_w: i32, bin_h: i32, n: int)
    requires
        0 < bin_w,
        0 < bin_h,
        forall|i: int| 0 <= i < items.len() ==> 0 < (#[trigger] items[i]).width && 0 < items[i].height,
    ensures
        decode_inv(spec_decode_prefix(chrom, items, bin_w, bin_h, n), bin_w, bin_h),
    decreases n,
{
    if n <= 0 {
    } else {
        lemma_decode_prefix_inv(chrom, items, bin_w, bin_h, n - 1);
        let st = spec_decode_prefix(chrom, items, bin_w, bin_h, n - 1);
        if n - 1 < items.len() && chrom[n - 1] != 0 {
            let item = items[n - 1];
            match spec_find_best_fit(st.free, item.width, item.height) {
                Option::None => {},
                Option::Some((idx, placed)) => {
                    lemma_best_fit_fits(st.free, item.width, item.height);
                    let within = placed.x + placed.width <= bin_w && placed.y + placed.height
                        <= bin_h;
                    let no_overlap = forall|k: int|
                        0 <= k < st.placed.len() ==> !spec_overlap(
                            placed,
                            #[trigger] st.placed[k],
                        );
                    if within && no_overlap {
                        assert(rect_within_bin(placed, bin_w as int, bin_h as int));
                        lemma_split_in_bin(st.free, idx, placed, bin_w, bin_h);
                        lemma_prune_in_bin(
                            spec_split(st.free, idx, placed, bin_w, bin_h),
                            bin_w,
                            bin_h,
                        );
                        let st2 = spec_decode_step(st, chrom[n - 1], item, bin_w, bin_h);
                        assert(st2.placed == st.placed.push(placed));
                        assert(forall|k: int, l: int|
                            0 <= k < l < st2.placed.len() ==> !spec_overlap(
                                #[trigger] st2.placed[k],
                                #[trigger] st2.placed[l],
                            ));
                    }
                },
            }
        }
    }
}

/// Decode one encoding against the problem: greedy best-area-fit placement
/// of every item whose gene is set, then the exact fitness. A pure
/// function of its arguments (the result is pinned to `spec_decode`), so
/// decoding the same encoding twice yields identical results. Placements
/// never overlap and never leave the bin; fitness lies in [0, 1] and is
/// zero exactly when nothing was placed.
#[verifier::loop_isolation(false)]
pub fn decode_chromosome(chromosome: &Vec<u8>, problem: &Problem) -> (r: (Vec<Rect>, Fitness))
    requires
        problem.valid(),
    ensures
        r.0@ == spec_decode(chromosome@, *problem).placed,
        r.1.used as int == spec_fitness(chromosome@, *problem),
        r.1.total as int == problem.spec_bin_area(),
        r.1.valid(),
        r.1.used == 0 <==> r.0@.len() == 0,
        forall|k: int|
            0 <= k < r.0@.len() ==> rect_within_bin(
                #[trigger] r.0@[k],
                problem.bin_width as int,
                problem.bin_height as int,
            ),
        forall|k: int, l: int|
            0 <= k < l < r.0@.len() ==> !spec_overlap(#[trigger] r.0@[k], #[trigger] r.0@[l]),
{
    let ghost items = problem.rectangles@;
    let ghost bw = problem.bin_width;
    let ghost bh = problem.bin_height;

    let mut placed_rects: Vec<Rect> = Vec::new();
    let mut free_rects: Vec<Rect> = Vec::new();
    free_rects.push(
        Rect { x: 0, y: 0, width: problem.bin_width, height: problem.bin_height },
    );
    proof {
        assert(free_rects@ =~= seq![Rect { x: 0, y: 0, width: bw, height: bh }]);
    }

    let mut i: usize = 0;
    while i < chromosome.len()
        invariant
            i <= chromosome@.len(),
            spec_decode_prefix(chromosome@, items, bw, bh, i as int) == (DecodeState {
                placed: placed_rects@,
                free: free_rects@,
            }),
        decreases chromosome@.len() - i,
    {
        proof {
            lemma_decode_prefix_inv(chromosome@, items, bw, bh, i as int);
            let st = spec_decode_prefix(chromosome@, items, bw, bh, i as int);
            assert(st.free == free_rects@);
            assert(st.placed == placed_rects@);
            assert(decode_inv(st, bw, bh));
            assert forall|k: int| 0 <= k < free_rects@.len() implies rect_within_bin(
                #[trigger] free_rects@[k],
                bw as int,
                bh as int,
            ) by {
                assert(rect_within_bin(st.free[k], bw as int, bh as int));
            }
            assert forall|k: int| 0 <= k < placed_rects@.len() implies rect_within_bin(
                #[trigger] placed_rects@[k],
                bw as int,
                bh as int,
            ) by {
                assert(rect_within_bin(st.placed[k], bw as int, bh as int));
            }
        }
        let gene = chromosome[i];
        if gene != 0 && i < problem.rectangles.len() {
            let rect = problem.rectangles[i];
            proof {
                assert forall|k: int| 0 <= k < free_rects@.len() implies {
                    &&& 0 <= (#[trigger] free_rects@[k]).width
                    &&& 0 <= free_rects@[k].height
                    &&& free_rects@[k].spec_area() <= i32::MAX
                } by {
                    lemma_in_bin_area(free_rects@[k], bw as int, bh as int);
                }
            }
            match find_best_area_fit(&free_rects, rect.width, rect.height) {
                Option::Some((best_idx, placed_rect)) => {
                    proof {
                        lemma_best_fit_fits(free_rects@, rect.width, rect.height);
                    }
                    let within_bounds = placed_rect.x + placed_rect.width <= problem.bin_width
                        && placed_rect.y + placed_rect.height <= problem.bin_height;

                    let mut no_overlap = true;
                    let mut k: usize = 0;
                    while k < placed_rects.len() && no_overlap
                        invariant
                            k <= placed_rects@.len(),
                            no_overlap ==> forall|m: int|
                                0 <= m < k ==> !spec_overlap(
                                    placed_rect,
                                    #[trigger] placed_rects@[m],
                                ),
                            !no_overlap ==> exists|m: int|
                                0 <= m < placed_rects@.len() && spec_overlap(
                                    placed_rect,
                                    #[trigger] placed_rects@[m],
                                ),
                        decreases placed_rects@.len() - k,
                            1int - (if no_overlap {
                                0int
                            } else {
                                1int
                            }),
                    {
                        let existing = placed_rects[k];
                        if rectangles_overlap(&placed_rect, &existing) {
                            no_overlap = false;
                        } else {
                            k = k + 1;
                        }
                    }
                    proof {
                        if no_overlap {
                            assert(k == placed_rects@.len());
                        } else {
                            let m = choose|m: int|
                                0 <= m < placed_rects@.len() && spec_overlap(
                                    placed_rect,
                                    #[trigger] placed_rects@[m],
                                );
                            assert(spec_overlap(placed_rect, placed_rects@[m]));
                        }
                        assert(no_overlap == (forall|m: int|
                            0 <= m < placed_rects@.len() ==> !spec_overlap(
                                placed_rect,
                                #[trigger] placed_rects@[m],
                            )));
                    }

                    if within_bounds && no_overlap {
                        placed_rects.push(placed_rect);
                        proof {
                            assert(rect_within_bin(placed_rect, bw as int, bh as int));
                        }
                        split_free_rect(
                            &mut free_rects,
                            best_idx,
                            &placed_rect,
                            problem.bin_width,
                            problem.bin_height,
                        );
                        prune_free_rects(&mut free_rects);
                    }
                },
                Option::None => {},
            }
        }
        i = i + 1;
    }

    proof {
        lemma_decode_prefix_inv(chromosome@, items, bw, bh, chromosome@.len() as int);
        let st = spec_decode_prefix(chromosome@, items, bw, bh, chromosome@.len() as int);
        assert(st.placed == placed_rects@);
        assert forall|k: int| 0 <= k < placed_rects@.len() implies rect_within_bin(
            #[trigger] placed_rects@[k],
            bw as int,
            bh as int,
        ) by {
            assert(rect_within_bin(st.placed[k], bw as int, bh as int));
        }
        assert forall|k: int, l: int| 0 <= k < l < placed_rects@.len() implies !spec_overlap(
            #[trigger] placed_rects@[k],
            #[trigger] placed_rects@[l],
        ) by {
            assert(!spec_overlap(st.placed[k], st.placed[l]));
        }
        lemma_disjoint_area_bound(placed_rects@, bw as int, bh as int);
        lemma_sum_areas_zero_iff_empty(placed_rects@);
        assert forall|k: int| 0 <= k < placed_rects@.len() implies 0 <= (
        #[trigger] placed_rects@[k]).spec_area() <= i32::MAX by {
            lemma_in_bin_area(placed_rects@[k], bw as int, bh as int);
        }
    }

    let total_area = problem.bin_width * problem.bin_height;
    let mut used_area: i32 = 0;
    let mut k: usize = 0;
    while k < placed_rects.len()
        invariant
            k <= placed_rects@.len(),
            used_area as int == sum_areas(placed_rects@.take(k as int)),
        decreases placed_rects@.len() - k,
    {
        proof {
            lemma_sum_areas_take_step(placed_rects@, k as int);
            lemma_sum_areas_take_bound(placed_rects@, k as int + 1);
        }
        let a = placed_rects[k].area();
        used_area = used_area + a;
        k = k + 1;
    }
    proof {
        assert(placed_rects@.take(placed_rects@.len() as int) =~= placed_rects@);
        assert(0 < bw * bh) by (nonlinear_arith)
            requires
                0 < bw,
                0 < bh,
        ;
    }

    (placed_rects, Fitness { used: used_area, total: total_area })
}

/// For every encoding and every valid problem, no two placed rectangles of
/// the decode overlap, and every placed rectangle lies within the bin.
pub proof fn lemma_decode_placements_sound(chrom: Seq<u8>, p: Problem)
    requires
        p.valid(),
    ensures
        forall|k: int, l: int|
            0 <= k < l < spec_decode(chrom, p).placed.len() ==> !spec_overlap(
                #[trigger] spec_decode(chrom, p).placed[k],
                #[trigger] spec_decode(chrom, p).placed[l],
            ),
        forall|k: int|
            0 <= k < spec_decode(chrom, p).placed.len() ==> rect_within_bin(
                #[trigger] spec_decode(chrom, p).placed[k],
                p.bin_width as int,
                p.bin_height as int,
            ),
{
    lemma_decode_prefix_inv(
        chrom,
        p.rectangles@,
        p.bin_width,
        p.bin_height,
        chrom.len() as int,
    );
}

/// For every encoding and every valid problem, the fitness numerator lies
/// between zero and the bin area (fitness between 0 and 1), and is zero
/// exactly when nothing was placed.
pub proof fn lemma_fitness_in_range(chrom: Seq<u8>, p: Problem)
    requires
        p.valid(),
    ensures
        0 <= spec_fitness(chrom, p) <= p.spec_bin_area(),
        spec_fitness(chrom, p) == 0 <==> spec_decode(chrom, p).placed.len() == 0,
{
    lemma_decode_placements_sound(chrom, p);
    let placed = spec_decode(chrom, p).placed;
    lemma_disjoint_area_bound(placed, p.bin_width as int, p.bin_height as int);
    lemma_sum_areas_zero_iff_empty(placed);
}

/// Fitness one means the bin is exactly tiled: when the placed area equals
/// the bin area, every cell of the bin lies under some placed rectangle
/// (and conversely, a tiling's areas sum to the bin area by definition of
/// the fitness).
pub proof fn lemma_fitness_one_tiles_bin(chrom: Seq<u8>, p: Problem, x: int, y: int)
    requires
        p.valid(),
        spec_fitness(chrom, p) == p.spec_bin_area(),
        0 <= x < p.bin_width,
        0 <= y < p.bin_height,
    ensures
        covers_point(spec_decode(chrom, p).placed, x, y),
{
    lemma_decode_placements_sound(chrom, p);
    lemma_full_area_tiles_bin(
        spec_decode(chrom, p).placed,
        p.bin_width as int,
        p.bin_height as int,
        x,
        y,
    );
}

/// Decoding is deterministic: the decode state is a function of the
/// encoding and the problem alone, so decoding the same encoding against
/// the same problem twice yields bit-identical placements and fitness.
pub proof fn lemma_decode_deterministic(chrom: Seq<u8>, p: Problem, s1: DecodeState, s2: DecodeState)
    requires
        s1 == spec_decode(chrom, p),
        s2 == spec_decode(chrom, p),
    ensures
        s1 == s2,
{
}

/// An all-zero encoding places nothing and scores zero.
pub proof fn lemma_zero_encoding_prefix(chrom: Seq<u8>, items: Seq<Rect>, bin_w: i32, bin_h: i32, n: int)
    requires
        n <= chrom.len(),
        forall|i: int| 0 <= i < chrom.len() ==> chrom[i] == 0,
    ensures
        spec_decode_prefix(chrom, items, bin_w, bin_h, n).placed.len() == 0,
    decreases n,
{
    if n > 0 {
        lemma_zero_encoding_prefix(chrom, items, bin_w, bin_h, n - 1);
    }
}

/// An encoding composed entirely of zero genes decodes to zero placed
/// rectangles and fitness zero.
pub proof fn lemma_zero_encoding_decodes_empty(chrom: Seq<u8>, p: Problem)
    requires
        forall|i: int| 0 <= i < chrom.len() ==> chrom[i] == 0,
    ensures
        spec_decode(chrom, p).placed.len() == 0,
        spec_fitness(chrom, p) == 0,
{
    lemma_zero_encoding_prefix(
        chrom,
        p.rectangles@,
        p.bin_width,
        p.bin_height,
        chrom.len() as int,
    );
    assert(spec_decode(chrom, p).placed =~= Seq::<Rect>::empty());
}

/// Is `rect1` fully contained within `rect2`?
pub fn is_contained_in(rect1: &Rect, rect2: &Rect) -> (b: bool)
    requires
        rect_sums_bounded(*rect1),
        rect_sums_bounded(*rect2),
    ensures
        b == spec_contains_rect(*rect2, *rect1),
{
    rect2.contains_rect(rect1)
}

} // verus!
