use binpack_ga::decoder::{
    decode_chromosome, find_best_area_fit, is_contained_in, prune_free_rects, split_free_rect,
};
use binpack_ga::geometry::{build_problem, rectangles_overlap, ItemRecord, Problem, Rect};

fn rect(x: i32, y: i32, width: i32, height: i32) -> Rect {
    Rect { x, y, width, height }
}

fn sample_problem() -> Problem {
    let shapes = [
        (50, 30),
        (40, 40),
        (30, 20),
        (60, 25),
        (35, 35),
        (45, 50),
        (25, 25),
        (55, 30),
    ];
    let mut rectangles = Vec::new();
    for (w, h) in shapes {
        rectangles.push(rect(0, 0, w, h));
    }
    Problem { bin_width: 150, bin_height: 80, rectangles }
}

#[test]
fn zero_encoding_decodes_empty() {
    let problem = sample_problem();
    let chromosome = vec![0u8; problem.rectangles.len()];
    let (placed, fitness) = decode_chromosome(&chromosome, &problem);
    assert_eq!(placed.len(), 0);
    assert_eq!(fitness.used, 0);
    assert_eq!(fitness.total, 150 * 80);
}

#[test]
fn decode_is_idempotent() {
    let problem = sample_problem();
    let chromosome = vec![1u8, 0, 1, 1, 0, 1, 1, 1];
    let (placed1, fitness1) = decode_chromosome(&chromosome, &problem);
    let (placed2, fitness2) = decode_chromosome(&chromosome, &problem);
    assert_eq!(placed1, placed2);
    assert_eq!(fitness1, fitness2);
}

#[test]
fn decoded_placements_stay_in_bounds_and_disjoint() {
    let problem = sample_problem();
    let chromosome = vec![1u8; problem.rectangles.len()];
    let (placed, fitness) = decode_chromosome(&chromosome, &problem);
    for r in &placed {
        assert!(r.x >= 0 && r.y >= 0);
        assert!(r.width > 0 && r.height > 0);
        assert!(r.x + r.width <= problem.bin_width);
        assert!(r.y + r.height <= problem.bin_height);
    }
    for i in 0..placed.len() {
        for j in (i + 1)..placed.len() {
            assert!(!rectangles_overlap(&placed[i], &placed[j]));
        }
    }
    let used: i32 = placed.iter().map(|r| r.width * r.height).sum();
    assert_eq!(fitness.used, used);
    assert!(fitness.used >= 0 && fitness.used <= fitness.total);
}

#[test]
fn single_item_tiles_the_bin() {
    let problem = Problem { bin_width: 10, bin_height: 10, rectangles: vec![rect(0, 0, 10, 10)] };
    let (placed, fitness) = decode_chromosome(&vec![1u8], &problem);
    assert_eq!(placed, vec![rect(0, 0, 10, 10)]);
    assert_eq!(fitness.used, 100);
    assert_eq!(fitness.total, 100);
}

#[test]
fn item_is_rotated_when_only_that_fits() {
    let problem = Problem { bin_width: 10, bin_height: 5, rectangles: vec![rect(0, 0, 5, 10)] };
    let (placed, fitness) = decode_chromosome(&vec![1u8], &problem);
    assert_eq!(placed, vec![rect(0, 0, 10, 5)]);
    assert_eq!(fitness.used, 50);
    assert_eq!(fitness.total, 50);
}

#[test]
fn oversized_item_is_dropped_silently() {
    let problem = Problem { bin_width: 10, bin_height: 10, rectangles: vec![rect(0, 0, 11, 11)] };
    let (placed, fitness) = decode_chromosome(&vec![1u8], &problem);
    assert_eq!(placed.len(), 0);
    assert_eq!(fitness.used, 0);
}

#[test]
fn excess_genes_are_ignored() {
    let problem = Problem { bin_width: 10, bin_height: 10, rectangles: vec![rect(0, 0, 4, 4)] };
    let (placed, _) = decode_chromosome(&vec![1u8, 1, 1, 1], &problem);
    assert_eq!(placed.len(), 1);
}

#[test]
fn best_area_fit_picks_tightest_free_rect() {
    let free = vec![rect(0, 0, 20, 20), rect(30, 0, 5, 5)];
    let found = find_best_area_fit(&free, 5, 5);
    assert_eq!(found, Some((1, rect(30, 0, 5, 5))));
}

#[test]
fn best_area_fit_keeps_earliest_on_tie() {
    let free = vec![rect(0, 0, 6, 6), rect(10, 0, 6, 6)];
    let found = find_best_area_fit(&free, 6, 6);
    assert_eq!(found, Some((0, rect(0, 0, 6, 6))));
}

#[test]
fn best_area_fit_reports_no_fit() {
    let free = vec![rect(0, 0, 4, 4)];
    assert_eq!(find_best_area_fit(&free, 5, 5), None);
}

#[test]
fn split_produces_right_and_bottom_strips() {
    let mut free = vec![rect(0, 0, 10, 10)];
    let placed = rect(0, 0, 4, 4);
    split_free_rect(&mut free, 0, &placed, 10, 10);
    assert_eq!(free, vec![rect(4, 0, 6, 10), rect(0, 4, 10, 6)]);
}

#[test]
fn split_consuming_whole_rect_leaves_nothing() {
    let mut free = vec![rect(0, 0, 10, 10)];
    let placed = rect(0, 0, 10, 10);
    split_free_rect(&mut free, 0, &placed, 10, 10);
    assert_eq!(free, Vec::<Rect>::new());
}

#[test]
fn prune_removes_contained_rects() {
    let mut free = vec![rect(0, 0, 10, 10), rect(2, 2, 3, 3)];
    prune_free_rects(&mut free);
    assert_eq!(free, vec![rect(0, 0, 10, 10)]);
}

#[test]
fn prune_keeps_incomparable_rects() {
    let mut free = vec![rect(0, 0, 5, 10), rect(3, 0, 10, 5)];
    prune_free_rects(&mut free);
    assert_eq!(free, vec![rect(0, 0, 5, 10), rect(3, 0, 10, 5)]);
}

#[test]
fn overlap_is_strict() {
    let a = rect(0, 0, 5, 5);
    let touching = rect(5, 0, 5, 5);
    let crossing = rect(4, 4, 5, 5);
    assert!(!rectangles_overlap(&a, &touching));
    assert!(rectangles_overlap(&a, &crossing));
    assert!(rectangles_overlap(&a, &a));
}

#[test]
fn containment_checks_all_edges() {
    let outer = rect(0, 0, 10, 10);
    let inner = rect(2, 2, 3, 3);
    let poking_out = rect(8, 8, 3, 3);
    assert!(is_contained_in(&inner, &outer));
    assert!(!is_contained_in(&outer, &inner));
    assert!(!is_contained_in(&poking_out, &outer));
    assert!(is_contained_in(&outer, &outer));
}

#[test]
fn build_problem_expands_demand() {
    let records = vec![
        ItemRecord { length: 50, height: 30, demand: 2 },
        ItemRecord { length: 40, height: 40, demand: 1 },
        ItemRecord { length: 9, height: 9, demand: 0 },
    ];
    let problem = build_problem(150, 80, &records);
    assert_eq!(problem.bin_width, 150);
    assert_eq!(problem.bin_height, 80);
    assert_eq!(
        problem.rectangles,
        vec![rect(0, 0, 50, 30), rect(0, 0, 50, 30), rect(0, 0, 40, 40)]
    );
}

#[test]
fn check_valid_accepts_and_rejects() {
    let good = sample_problem();
    assert!(good.check_valid());
    let zero_bin = Problem { bin_width: 0, bin_height: 10, rectangles: vec![] };
    assert!(!zero_bin.check_valid());
    let zero_item = Problem { bin_width: 10, bin_height: 10, rectangles: vec![rect(0, 0, 0, 3)] };
    assert!(!zero_item.check_valid());
}
