use novelty_search::evolution::EvolutionProgress;
use novelty_search::novelty::{
    adapt_threshold, admits_to_archive, nearest_neighbours, NoveltyProgress, ThresholdChange,
    ARCHIVE_PATIENCE, K_NEAREST,
};
use novelty_search::order_key::order_key;
use novelty_search::selection::POPULATION_SIZE;

fn key(x: f64) -> u64 {
    order_key(x.to_bits())
}

#[test]
fn evolution_starts_empty() {
    let p = EvolutionProgress::new();
    assert_eq!(p.generation, 0);
    assert_eq!(p.total_evaluations, 0);
    assert_eq!(p.best_key, key(f64::NEG_INFINITY));
    assert!(!p.solved);
}

#[test]
fn evolution_generation_without_solution_breeds() {
    let mut p = EvolutionProgress::new();
    let mut fitness = vec![-100.0; POPULATION_SIZE];
    fitness[7] = -3.0;
    fitness[9] = -3.0;
    let keys: Vec<u64> = fitness.iter().map(|&f| key(f)).collect();
    let step = p.step_generation(&keys);
    assert_eq!(step.best_idx, 7);
    assert!(step.improved);
    assert!(!step.solved);
    assert_eq!(step.parents.len(), POPULATION_SIZE - 1);
    assert!(step.parents.iter().all(|&i| i < POPULATION_SIZE));
    assert_eq!(p.generation, 1);
    assert_eq!(p.total_evaluations, POPULATION_SIZE as u32);
    assert_eq!(p.best_key, key(-3.0));
    // A worse generation does not improve.
    let keys: Vec<u64> = vec![key(-50.0); POPULATION_SIZE];
    let step = p.step_generation(&keys);
    assert!(!step.improved);
    assert_eq!(p.best_key, key(-3.0));
    assert_eq!(p.total_evaluations, 2 * POPULATION_SIZE as u32);
}

#[test]
fn evolution_solves_at_fitness_zero() {
    let mut p = EvolutionProgress::new();
    let mut fitness = vec![-10.0; POPULATION_SIZE];
    fitness[3] = 0.0;
    let keys: Vec<u64> = fitness.iter().map(|&f| key(f)).collect();
    let step = p.step_generation(&keys);
    assert!(step.solved);
    assert_eq!(step.best_idx, 3);
    assert!(step.parents.is_empty());
    assert!(p.solved);
    // Negative zero counts as zero.
    let mut p = EvolutionProgress::new();
    let mut fitness = vec![-10.0; POPULATION_SIZE];
    fitness[5] = -0.0;
    let keys: Vec<u64> = fitness.iter().map(|&f| key(f)).collect();
    assert!(p.step_generation(&keys).solved);
}

#[test]
fn threshold_rule() {
    assert_eq!(adapt_threshold(0, 0), (ThresholdChange::Keep, 150));
    assert_eq!(adapt_threshold(0, 2300), (ThresholdChange::Keep, 2450));
    assert_eq!(adapt_threshold(0, 2350), (ThresholdChange::Lower, 0));
    assert_eq!(adapt_threshold(3, 2000), (ThresholdChange::Keep, 0));
    assert_eq!(adapt_threshold(4, 100), (ThresholdChange::Keep, 0));
    assert_eq!(adapt_threshold(5, 100), (ThresholdChange::Raise, 0));
}

#[test]
fn patience_count_stays_below_limit() {
    let mut evals = 0;
    for _ in 0..100 {
        let (_, next) = adapt_threshold(0, evals);
        evals = next;
        assert!(evals < ARCHIVE_PATIENCE);
    }
}

#[test]
fn archive_admission_is_strict() {
    assert!(admits_to_archive(key(6.5), key(6.0)));
    assert!(!admits_to_archive(key(6.0), key(6.0)));
    assert!(!admits_to_archive(key(1.0), key(6.0)));
}

#[test]
fn nearest_neighbours_skip_self_and_sort() {
    let pop = vec![key(0.0), key(3.0), key(1.0), key(3.0)];
    let arch = vec![key(2.0), key(0.0)];
    let chosen = nearest_neighbours(&pop, &arch, key(1e-10));
    // Population entry 0 (the point itself) is skipped; archive zero is kept.
    assert_eq!(chosen, vec![5, 2, 4, 1, 3]);
}

#[test]
fn nearest_neighbours_take_at_most_k() {
    let pop: Vec<u64> = (0..40).rev().map(|i| key(i as f64 + 1.0)).collect();
    let chosen = nearest_neighbours(&pop, &vec![], key(1e-10));
    assert_eq!(chosen.len(), K_NEAREST);
    let expected: Vec<usize> = (25..40).rev().collect();
    assert_eq!(chosen, expected);
}

#[test]
fn nearest_neighbours_of_lonely_point() {
    let chosen = nearest_neighbours(&vec![key(0.0)], &vec![], key(1e-10));
    assert!(chosen.is_empty());
}

#[test]
fn novelty_generation_bookkeeping() {
    let mut p = NoveltyProgress::new();
    assert_eq!(p.closest_key, key(f64::INFINITY));
    let mut novelty = vec![1.0; POPULATION_SIZE];
    novelty[2] = 8.0;
    novelty[4] = 9.0;
    novelty[6] = 9.0;
    let mut goal = vec![100.0; POPULATION_SIZE];
    goal[10] = 20.0;
    goal[11] = 20.0;
    let nk: Vec<u64> = novelty.iter().map(|&x| key(x)).collect();
    let gk: Vec<u64> = goal.iter().map(|&x| key(x)).collect();
    let step = p.step_generation(&nk, key(6.0), &gk, key(5.0));
    assert_eq!(step.additions, 3);
    assert!(step.archived[2] && step.archived[4] && step.archived[6]);
    assert!(!step.archived[0]);
    assert_eq!(step.best_novelty_idx, 4);
    assert_eq!(step.elite_idx, 6);
    assert_eq!(step.closest_idx, 10);
    assert!(step.closer);
    assert!(!step.solved);
    assert!(step.keep_trajectory);
    assert_eq!(step.threshold, ThresholdChange::Keep);
    assert_eq!(step.tournament_winners.len(), POPULATION_SIZE - 1);
    assert_eq!(p.generation, 1);
    assert_eq!(p.closest_generation, 1);
    assert_eq!(p.closest_individual_idx, 10);
    assert_eq!(p.closest_key, key(20.0));
    assert_eq!(p.last_gen_archive_additions, 3);
    assert_eq!(p.evals_since_last_addition, 0);

    // A generation that gets no closer keeps the old closest individual.
    let gk: Vec<u64> = vec![key(50.0); POPULATION_SIZE];
    let nk: Vec<u64> = vec![key(1.0); POPULATION_SIZE];
    let step = p.step_generation(&nk, key(6.0), &gk, key(5.0));
    assert!(!step.closer && !step.keep_trajectory);
    assert_eq!(step.additions, 0);
    assert_eq!(p.closest_generation, 1);
    assert_eq!(p.evals_since_last_addition, POPULATION_SIZE as u32);
    assert_eq!(p.total_evaluations, 2 * POPULATION_SIZE as u32);
}

#[test]
fn novelty_generation_solved() {
    let mut p = NoveltyProgress::new();
    let nk: Vec<u64> = vec![key(1.0); POPULATION_SIZE];
    let mut goal = vec![30.0; POPULATION_SIZE];
    goal[17] = 5.0;
    let gk: Vec<u64> = goal.iter().map(|&x| key(x)).collect();
    let step = p.step_generation(&nk, key(6.0), &gk, key(5.0));
    assert!(step.solved);
    assert!(p.solved);
    assert_eq!(p.closest_individual_idx, 17);
    // Many additions raise the threshold.
    let nk: Vec<u64> = vec![key(10.0); POPULATION_SIZE];
    let step = p.step_generation(&nk, key(6.0), &gk, key(5.0));
    assert_eq!(step.threshold, ThresholdChange::Raise);
    assert_eq!(step.elite_idx, POPULATION_SIZE - 1);
    assert_eq!(step.best_novelty_idx, 0);
}
