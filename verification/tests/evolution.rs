use rand::rngs::StdRng;
use rand::SeedableRng;

use binpack_ga::decoder::decode_chromosome;
use binpack_ga::genetic::{
    elite_count, elitism, evolve_generation, generate_chromosome, generate_initial_chromosomes,
    genetic_algorithm, mutation, rank_chromosomes, roulette_selection, two_point_crossover, Ratio,
};
use binpack_ga::geometry::{Problem, Rect};

fn rect(x: i32, y: i32, width: i32, height: i32) -> Rect {
    Rect { x, y, width, height }
}

fn sample_problem() -> Problem {
    let shapes = [
        (50, 30),
        (40, 40),
        (30, 20),
        (60, 25),
        (35, 35),
        (45, 50),
        (25, 25),
        (55, 30),
    ];
    let mut rectangles = Vec::new();
    for (w, h) in shapes {
        rectangles.push(rect(0, 0, w, h));
    }
    Problem { bin_width: 150, bin_height: 80, rectangles }
}

fn seeded(seed: u64) -> StdRng {
    StdRng::seed_from_u64(seed)
}

#[test]
fn generated_chromosome_is_binary_with_few_zeros() {
    let mut rng = seeded(7);
    let chromosome = generate_chromosome(100, &mut rng);
    assert_eq!(chromosome.len(), 100);
    assert!(chromosome.iter().all(|&g| g == 0 || g == 1));
    let zeros = chromosome.iter().filter(|&&g| g == 0).count();
    assert!(zeros <= 10);
    assert!(zeros >= 1);
}

#[test]
fn short_chromosome_is_all_ones() {
    let mut rng = seeded(7);
    let chromosome = generate_chromosome(5, &mut rng);
    assert_eq!(chromosome, vec![1u8; 5]);
}

#[test]
fn initial_population_has_requested_shape() {
    let mut rng = seeded(11);
    let population = generate_initial_chromosomes(8, 30, &mut rng);
    assert_eq!(population.len(), 30);
    // Below ten genes, no zeros are forced: every member is all ones.
    assert!(population.iter().all(|c| *c == vec![1u8; 8]));
}

#[test]
fn initial_population_of_long_chromosomes_has_zeros() {
    let mut rng = seeded(11);
    let population = generate_initial_chromosomes(40, 10, &mut rng);
    for c in &population {
        assert_eq!(c.len(), 40);
        let zeros = c.iter().filter(|&&g| g == 0).count();
        assert!(zeros >= 1 && zeros <= 4);
    }
}

#[test]
fn selection_pairs_come_from_parents() {
    let mut rng = seeded(3);
    let mut parents = Vec::new();
    for i in 0..6u8 {
        parents.push(vec![i; 4]);
    }
    let pairs = roulette_selection(&parents, &mut rng);
    assert_eq!(pairs.len(), 3);
    for (a, b) in &pairs {
        assert!(parents.contains(a));
        assert!(parents.contains(b));
    }
}

#[test]
fn selection_of_odd_population_drops_one_pairing() {
    let mut rng = seeded(3);
    let parents = vec![vec![1u8; 4]; 7];
    let pairs = roulette_selection(&parents, &mut rng);
    assert_eq!(pairs.len(), 3);
}

#[test]
fn crossover_yields_two_children_per_pair_with_same_gene_count() {
    let mut rng = seeded(5);
    let p1 = vec![0u8; 10];
    let p2 = vec![1u8; 10];
    let pairs = vec![(p1.clone(), p2.clone()), (p2.clone(), p1.clone())];
    let children = two_point_crossover(&pairs, &mut rng);
    assert_eq!(children.len(), 4);
    for child in &children {
        assert_eq!(child.len(), 10);
        assert!(child.iter().all(|&g| g == 0 || g == 1));
    }
    // Mirror structure: at each position the two children of one pair hold
    // the two parents' genes, one each.
    for k in 0..pairs.len() {
        let (a, b) = &pairs[k];
        let c1 = &children[2 * k];
        let c2 = &children[2 * k + 1];
        for j in 0..10 {
            assert!(
                (c1[j] == a[j] && c2[j] == b[j]) || (c1[j] == b[j] && c2[j] == a[j])
            );
        }
    }
}

#[test]
fn crossover_of_identical_parents_reproduces_them() {
    let mut rng = seeded(9);
    let p = vec![1u8, 0, 1, 1, 0, 0, 1, 0];
    let pairs = vec![(p.clone(), p.clone())];
    let children = two_point_crossover(&pairs, &mut rng);
    assert_eq!(children, vec![p.clone(), p]);
}

#[test]
fn mutation_rate_zero_changes_nothing() {
    let mut rng = seeded(13);
    let chromosomes = vec![vec![1u8, 0, 1, 0], vec![0u8, 0, 1, 1]];
    let mutated = mutation(&chromosomes, Ratio { num: 0, den: 1 }, &mut rng);
    assert_eq!(mutated, chromosomes);
}

#[test]
fn mutation_rate_one_flips_every_gene() {
    let mut rng = seeded(13);
    let chromosomes = vec![vec![1u8, 0, 1, 0]];
    let mutated = mutation(&chromosomes, Ratio { num: 1, den: 1 }, &mut rng);
    assert_eq!(mutated, vec![vec![0u8, 1, 0, 1]]);
}

#[test]
fn elite_count_rounds_half_up() {
    assert_eq!(elite_count(10, Ratio { num: 1, den: 10 }), 1);
    assert_eq!(elite_count(5, Ratio { num: 1, den: 2 }), 3);
    assert_eq!(elite_count(10, Ratio { num: 0, den: 1 }), 0);
    assert_eq!(elite_count(10, Ratio { num: 1, den: 1 }), 10);
    assert_eq!(elite_count(100, Ratio { num: 1, den: 10 }), 10);
}

#[test]
fn elitism_output_length_equals_population_size() {
    let parents: Vec<Vec<u8>> = (0..10u8).map(|i| vec![i; 3]).collect();
    let children: Vec<Vec<u8>> = (100..110u8).map(|i| vec![i; 3]).collect();
    let next = elitism(&parents, &children, Ratio { num: 1, den: 10 }, 10);
    assert_eq!(next.len(), 10);
    assert_eq!(next[0], parents[0]);
    for i in 1..10 {
        assert_eq!(next[i], children[i - 1]);
    }
}

#[test]
fn ranking_sorts_by_descending_fitness_and_keeps_members() {
    let problem = sample_problem();
    let len = problem.rectangles.len();
    let population = vec![vec![0u8; len], vec![1u8; len], {
        let mut one = vec![0u8; len];
        one[0] = 1;
        one
    }];
    let ranked = rank_chromosomes(&population, &problem);
    assert_eq!(ranked.len(), 3);
    for w in ranked.windows(2) {
        assert!(w[0].1.used >= w[1].1.used);
    }
    for (chromosome, fitness) in &ranked {
        assert!(population.contains(chromosome));
        let (_, again) = decode_chromosome(chromosome, &problem);
        assert_eq!(*fitness, again);
    }
    // The all-zero individual ranks last with fitness zero.
    assert_eq!(ranked[2].1.used, 0);
    assert_eq!(ranked[2].0, vec![0u8; len]);
}

#[test]
fn best_ever_fitness_never_regresses() {
    let problem = sample_problem();
    let mut rng = seeded(42);
    let mut population = generate_initial_chromosomes(problem.rectangles.len(), 100, &mut rng);
    let mut best_chromosome: Vec<u8> = Vec::new();
    let mut best_fitness = binpack_ga::decoder::Fitness { used: 0, total: 150 * 80 };
    let mut recorded = Vec::new();
    for _ in 0..100 {
        population = evolve_generation(
            &problem,
            &population,
            &mut best_chromosome,
            &mut best_fitness,
            Ratio { num: 1, den: 20 },
            Ratio { num: 1, den: 10 },
            &mut rng,
        );
        recorded.push(best_fitness.used);
    }
    for w in recorded.windows(2) {
        assert!(w[0] <= w[1]);
    }
    assert!(best_fitness.used > 0);
    let (_, check) = decode_chromosome(&best_chromosome, &problem);
    assert_eq!(check, best_fitness);
}

#[test]
fn end_to_end_run_is_deterministic_under_a_fixed_seed() {
    let problem = sample_problem();
    let mut rng1 = seeded(42);
    let run1 = genetic_algorithm(
        &problem,
        100,
        Ratio { num: 1, den: 20 },
        Ratio { num: 1, den: 10 },
        100,
        &mut rng1,
    );
    let mut rng2 = seeded(42);
    let run2 = genetic_algorithm(
        &problem,
        100,
        Ratio { num: 1, den: 20 },
        Ratio { num: 1, den: 10 },
        100,
        &mut rng2,
    );
    assert_eq!(run1, run2);
    assert!(run1.1.used > 0);
    assert!(run1.1.used <= run1.1.total);
    assert_eq!(run1.1.total, 150 * 80);
    assert_eq!(run1.0.len(), problem.rectangles.len());
    assert!(run1.0.iter().all(|&g| g == 0 || g == 1));
    let (_, check) = decode_chromosome(&run1.0, &problem);
    assert_eq!(check, run1.1);
    // Fewer than ten items: generation one is all-ones encodings, so the
    // best can never fall below the all-ones fitness.
    let (_, ones_fitness) = decode_chromosome(&vec![1u8; problem.rectangles.len()], &problem);
    assert!(run1.1.used >= ones_fitness.used);
}

#[test]
fn zero_iterations_record_no_best() {
    let problem = sample_problem();
    let mut rng = seeded(42);
    let (best, fitness) = genetic_algorithm(
        &problem,
        10,
        Ratio { num: 1, den: 20 },
        Ratio { num: 1, den: 10 },
        0,
        &mut rng,
    );
    assert_eq!(best, Vec::<u8>::new());
    assert_eq!(fitness.used, 0);
    assert_eq!(fitness.total, 150 * 80);
}
