//! Novelty search: the decisions of one generation.
//!
//! A behaviour is the final position of a robot. Its novelty is the mean
//! distance to its `K_NEAREST` nearest neighbours among the other final
//! positions of the generation and the archive. Distances and novelty
//! scores come in as ordering keys (`order_key`); computing them is not
//! part of this module.
use vstd::prelude::*;
use crate::eller::{count_true, lemma_count_true_push};
use vstd::set_lib::{lemma_int_range, lemma_len_subset, set_int_range};
use crate::evolution::is_tournament_pick;
use crate::order_key::{order_key, spec_order_key, INFINITY_BITS};
use crate::selection::{
    first_max_index, first_min_index, is_first_max, is_first_min, is_last_max, last_max_index,
    tournament_select, POPULATION_SIZE,
};

use crate::rng::thread_rng;

verus! {

/// Number of nearest neighbours that a novelty score averages over.
pub const K_NEAREST: usize = 15;

/// Evaluations without an archive addition after which the threshold drops.
pub const ARCHIVE_PATIENCE: u32 = 2500;

/// A generation adding more than this many behaviours raises the threshold.
pub const ARCHIVE_BURST: u32 = 4;

/// How the archive threshold `rho_min` changes after a generation.
#[derive(Clone, Copy, Debug, PartialEq, Eq)]
pub enum ThresholdChange {
    /// It stays.
    Keep,
    /// It drops by 5%.
    Lower,
    /// It rises by 20%.
    Raise,
}

/// The threshold rule: a generation with no additions counts towards the
/// patience, and once `ARCHIVE_PATIENCE` evaluations passed without one the
/// threshold drops and the count restarts; a generation with additions
/// restarts the count, and raises the threshold when it added more than
/// `ARCHIVE_BURST`.
pub open spec fn spec_threshold(additions: u32, evals_since_last_addition: u32) -> (ThresholdChange, u32) {
    if additions == 0 {
        let waited = evals_since_last_addition + POPULATION_SIZE;
        if waited >= ARCHIVE_PATIENCE {
            (ThresholdChange::Lower, 0u32)
        } else {
            (ThresholdChange::Keep, waited as u32)
        }
    } else if additions > ARCHIVE_BURST {
        (ThresholdChange::Raise, 0u32)
    } else {
        (ThresholdChange::Keep, 0u32)
    }
}

/// Applies the threshold rule; returns the change and the new count of
/// evaluations since the last archive addition.
pub fn adapt_threshold(additions: u32, evals_since_last_addition: u32) -> (r: (ThresholdChange, u32))
    requires
        evals_since_last_addition + POPULATION_SIZE <= u32::MAX,
    ensures
        r == spec_threshold(additions, evals_since_last_addition),
{
    if additions == 0 {
        let waited = evals_since_last_addition + POPULATION_SIZE as u32;
        if waited >= ARCHIVE_PATIENCE {
            (ThresholdChange::Lower, 0)
        } else {
            (ThresholdChange::Keep, waited)
        }
    } else if additions > ARCHIVE_BURST {
        (ThresholdChange::Raise, 0)
    } else {
        (ThresholdChange::Keep, 0)
    }
}

/// The threshold rule case by case: more than `ARCHIVE_BURST` additions
/// always raise the threshold, whatever the count of evaluations since the
/// last addition; one to `ARCHIVE_BURST` additions keep it; in both cases
/// the count restarts. A generation without additions adds a population's
/// worth of evaluations to the count, and lowers the threshold (restarting
/// the count) once that reaches `ARCHIVE_PATIENCE`.
pub proof fn threshold_rule(additions: u32, evals_since_last_addition: u32)
    requires
        evals_since_last_addition + POPULATION_SIZE <= u32::MAX,
    ensures
        additions > 4 ==> spec_threshold(additions, evals_since_last_addition) == (ThresholdChange::Raise, 0u32),
        1 <= additions <= 4 ==> spec_threshold(additions, evals_since_last_addition) == (ThresholdChange::Keep, 0u32),
        additions == 0 && evals_since_last_addition + 150 >= 2500 ==> spec_threshold(
            additions,
            evals_since_last_addition,
        ) == (ThresholdChange::Lower, 0u32),
        additions == 0 && evals_since_last_addition + 150 < 2500 ==> spec_threshold(
            additions,
            evals_since_last_addition,
        ) == (ThresholdChange::Keep, (evals_since_last_addition + 150) as u32),
{
}

/// After a generation with additions, the outcome does not depend on the
/// count of evaluations since the last addition.
pub proof fn threshold_ignores_patience_after_additions(additions: u32, e1: u32, e2: u32)
    requires
        additions > 0,
    ensures
        spec_threshold(additions, e1) == spec_threshold(additions, e2),
{
}

/// A behaviour enters the archive when its novelty exceeds the threshold.
pub open spec fn spec_admits(novelty_key: u64, rho_min_key: u64) -> bool {
    novelty_key > rho_min_key
}

/// Whether a behaviour with this novelty enters the archive.
pub fn admits_to_archive(novelty_key: u64, rho_min_key: u64) -> (b: bool)
    ensures
        b == spec_admits(novelty_key, rho_min_key),
{
    novelty_key > rho_min_key
}

/// Key of entry `i` of the population distances followed by the archive
/// distances.
pub open spec fn neighbour_key(population: Seq<u64>, archive: Seq<u64>, i: int) -> u64 {
    if i < population.len() { population[i] } else { archive[i - population.len()] }
}

/// Entry `i` counts as a neighbour: a population distance above `min_key`
/// (a distance at or below it is the behaviour itself), or any archive
/// distance.
pub open spec fn is_candidate(population: Seq<u64>, archive: Seq<u64>, min_key: u64, i: int) -> bool {
    ||| 0 <= i < population.len() && population[i] > min_key
    ||| population.len() <= i < population.len() + archive.len()
}

/// Entry `i` comes before entry `j` when sorting by key, earlier entries
/// first among equal keys.
pub open spec fn sorts_before(population: Seq<u64>, archive: Seq<u64>, i: int, j: int) -> bool {
    ||| neighbour_key(population, archive, i) < neighbour_key(population, archive, j)
    ||| neighbour_key(population, archive, i) == neighbour_key(population, archive, j) && i <= j
}

/// The entries that count as neighbours.
pub open spec fn candidates(population: Seq<u64>, archive: Seq<u64>, min_key: u64) -> Set<int> {
    Set::new(|i: int| is_candidate(population, archive, min_key, i))
}

/// How many entries count as neighbours.
pub open spec fn candidate_total(population: Seq<u64>, archive: Seq<u64>, min_key: u64) -> nat {
    candidates(population, archive, min_key).len()
}

/// `chosen` lists, in sorted order, the first `chosen.len()` candidates of a
/// stable sort by key.
pub open spec fn sorted_prefix(population: Seq<u64>, archive: Seq<u64>, min_key: u64, chosen: Seq<usize>) -> bool {
    &&& forall|m: int| 0 <= m < chosen.len() ==> is_candidate(population, archive, min_key, #[trigger] chosen[m] as int)
    &&& forall|m1: int, m2: int| 0 <= m1 < m2 < chosen.len() ==> chosen[m1] != chosen[m2]
    &&& forall|m: int, i: int|
        0 <= m < chosen.len() && is_candidate(population, archive, min_key, i)
            && (forall|q: int| 0 <= q < m ==> chosen[q] != i) ==> #[trigger] sorts_before(
            population,
            archive,
            chosen[m] as int,
            i,
        )
}

/// The neighbours a novelty score averages over: the `K_NEAREST` smallest
/// candidate distances (all of them when there are fewer), as indices into
/// the population distances followed by the archive distances, in the order
/// of a stable sort by distance. Population distances at or below
/// `min_key` are left out.
pub fn nearest_neighbours(population: &Vec<u64>, archive: &Vec<u64>, min_key: u64) -> (chosen: Vec<usize>)
    requires
        population@.len() + archive@.len() <= usize::MAX,
    ensures
        sorted_prefix(population@, archive@, min_key, chosen@),
        chosen@.len() == if candidate_total(population@, archive@, min_key) < K_NEAREST {
            candidate_total(population@, archive@, min_key) as int
        } else {
            K_NEAREST as int
        },
{
    let n = population.len() + archive.len();
    let ghost p = population@;
    let ghost a = archive@;
    let mut taken: Vec<bool> = Vec::new();
    let mut i: usize = 0;
    while i < n
        invariant
            n == p.len() + a.len(),
            population@ == p,
            archive@ == a,
            i <= n,
            taken@.len() == i,
            forall|j: int| 0 <= j < i ==> (#[trigger] taken@[j] <==> !is_candidate(p, a, min_key, j)),
        decreases n - i,
    {
        let cand = if i < population.len() { population[i] > min_key } else { true };
        taken.push(!cand);
        i += 1;
    }
    let mut chosen: Vec<usize> = Vec::new();
    let mut exhausted = false;
    proof {
        lemma_chosen_bound(p, a, min_key, chosen@);
    }
    while !exhausted && chosen.len() < K_NEAREST
        invariant
            n == p.len() + a.len(),
            population@ == p,
            archive@ == a,
            taken@.len() == n,
            chosen@.len() <= K_NEAREST,
            sorted_prefix(p, a, min_key, chosen@),
            forall|j: int| 0 <= j < n ==> (#[trigger] taken@[j] <==> (!is_candidate(p, a, min_key, j) || chosen@.contains(j as usize))),
            chosen@.len() <= candidate_total(p, a, min_key),
            exhausted ==> chosen@.len() == candidate_total(p, a, min_key),
        decreases K_NEAREST - chosen@.len(), if exhausted { 0int } else { 1int },
    {
        // Find the untaken entry that sorts first.
        let mut best: usize = n;
        let mut j: usize = 0;
        while j < n
            invariant
                n == p.len() + a.len(),
                population@ == p,
                archive@ == a,
                taken@.len() == n,
                j <= n,
                best == n || (best < j && !taken@[best as int]),
                forall|q: int| #![trigger taken@[q]] 0 <= q < j && !taken@[q] ==> best < n && sorts_before(p, a, best as int, q),
            decreases n - j,
        {
            if !taken[j] {
                let kj = if j < population.len() { population[j] } else { archive[j - population.len()] };
                if best == n {
                    best = j;
                } else {
                    let kb = if best < population.len() { population[best] } else { archive[best - population.len()] };
                    if kj < kb {
                        best = j;
                    }
                }
            }
            j += 1;
        }
        if best == n {
            proof {
                assert forall|i: int| is_candidate(p, a, min_key, i) implies chosen@.contains(i as usize) by {
                    assert(taken@[i]);
                }
                lemma_all_chosen(p, a, min_key, chosen@);
            }
            exhausted = true;
        } else {
            let ghost before = chosen@;
            let ghost taken_before = taken@;
            chosen.push(best);
            taken.set(best, true);
            proof {
                assert(is_candidate(p, a, min_key, best as int));
                assert(!before.contains(best)) by {
                    if before.contains(best) {
                        assert(taken_before[best as int]);
                    }
                }
                assert forall|m1: int, m2: int| 0 <= m1 < m2 < chosen@.len() implies chosen@[m1] != chosen@[m2] by {
                    if m2 == before.len() {
                        assert(before.contains(before[m1]));
                    }
                }
                assert forall|m: int| 0 <= m < chosen@.len() implies is_candidate(p, a, min_key, #[trigger] chosen@[m] as int) by {
                    if m < before.len() {
                        assert(chosen@[m] == before[m]);
                    }
                }
                assert forall|m: int, i: int|
                    0 <= m < chosen@.len() && is_candidate(p, a, min_key, i)
                        && (forall|q: int| 0 <= q < m ==> chosen@[q] != i) implies #[trigger] sorts_before(
                    p,
                    a,
                    chosen@[m] as int,
                    i,
                ) by {
                    if m < before.len() {
                        assert(chosen@[m] == before[m]);
                        assert forall|q: int| 0 <= q < m implies before[q] != i by {
                            assert(chosen@[q] == before[q]);
                        }
                    } else {
                        assert(!before.contains(i as usize)) by {
                            if before.contains(i as usize) {
                                let q = choose|q: int| 0 <= q < before.len() && before[q] == i as usize;
                                assert(chosen@[q] == before[q]);
                            }
                        }
                        if i != best {
                            assert(!taken_before[i]);
                        }
                    }
                }
                assert forall|j: int| 0 <= j < n implies (#[trigger] taken@[j] <==> (!is_candidate(p, a, min_key, j)
                    || chosen@.contains(j as usize))) by {
                    if j != best {
                        assert(taken_before[j] <==> (!is_candidate(p, a, min_key, j) || before.contains(j as usize)));
                        if before.contains(j as usize) {
                            let q = choose|q: int| 0 <= q < before.len() && before[q] == j as usize;
                            assert(chosen@[q] == j as usize);
                        }
                        if chosen@.contains(j as usize) {
                            let q = choose|q: int| 0 <= q < chosen@.len() && chosen@[q] == j as usize;
                            assert(before[q] == j as usize);
                        }
                    } else {
                        assert(chosen@[before.len() as int] == best);
                    }
                }
                lemma_chosen_bound(p, a, min_key, chosen@);
            }
        }
    }
    chosen
}

/// The candidates as a set of indices below the number of entries.
proof fn lemma_candidates_finite(p: Seq<u64>, a: Seq<u64>, min_key: u64)
    ensures
        candidates(p, a, min_key).finite(),
        candidates(p, a, min_key).subset_of(set_int_range(0, (p.len() + a.len()) as int)),
{
    lemma_int_range(0, (p.len() + a.len()) as int);
    lemma_len_subset(candidates(p, a, min_key), set_int_range(0, (p.len() + a.len()) as int));
}

/// Chosen entries are distinct candidates, so there are no more of them
/// than candidates.
proof fn lemma_chosen_bound(p: Seq<u64>, a: Seq<u64>, min_key: u64, chosen: Seq<usize>)
    requires
        forall|m: int| 0 <= m < chosen.len() ==> is_candidate(p, a, min_key, #[trigger] chosen[m] as int),
        forall|m1: int, m2: int| 0 <= m1 < m2 < chosen.len() ==> chosen[m1] != chosen[m2],
    ensures
        chosen.len() <= candidate_total(p, a, min_key),
        chosen_indices(chosen).to_set().len() == chosen.len(),
        chosen_indices(chosen).to_set().subset_of(candidates(p, a, min_key)),
{
    let ci = chosen_indices(chosen);
    assert forall|m1: int, m2: int| 0 <= m1 < ci.len() && 0 <= m2 < ci.len() && m1 != m2 implies ci[m1] != ci[m2] by {
        if m1 < m2 {
            assert(chosen[m1] != chosen[m2]);
        } else {
            assert(chosen[m2] != chosen[m1]);
        }
    }
    assert(ci.no_duplicates());
    ci.unique_seq_to_set();
    assert forall|i: int| ci.to_set().contains(i) implies candidates(p, a, min_key).contains(i) by {
        let m = choose|m: int| 0 <= m < ci.len() && ci[m] == i;
        assert(is_candidate(p, a, min_key, chosen[m] as int));
    }
    lemma_candidates_finite(p, a, min_key);
    lemma_len_subset(ci.to_set(), candidates(p, a, min_key));
}

/// When every candidate is chosen, all of them are.
proof fn lemma_all_chosen(p: Seq<u64>, a: Seq<u64>, min_key: u64, chosen: Seq<usize>)
    requires
        forall|m: int| 0 <= m < chosen.len() ==> is_candidate(p, a, min_key, #[trigger] chosen[m] as int),
        forall|m1: int, m2: int| 0 <= m1 < m2 < chosen.len() ==> chosen[m1] != chosen[m2],
        forall|i: int| is_candidate(p, a, min_key, i) ==> chosen.contains(i as usize),
        p.len() + a.len() <= usize::MAX,
    ensures
        chosen.len() == candidate_total(p, a, min_key),
{
    lemma_chosen_bound(p, a, min_key, chosen);
    let ci = chosen_indices(chosen);
    assert forall|i: int| candidates(p, a, min_key).contains(i) implies ci.to_set().contains(i) by {
        assert(chosen.contains(i as usize));
        assert(0 <= i < p.len() + a.len());
        let m = choose|m: int| 0 <= m < chosen.len() && chosen[m] == i as usize;
        assert(ci[m] == i);
    }
    lemma_candidates_finite(p, a, min_key);
    assert(ci.to_set() =~= candidates(p, a, min_key));
}

/// The chosen entries as integers.
pub open spec fn chosen_indices(chosen: Seq<usize>) -> Seq<int> {
    chosen.map_values(|x: usize| x as int)
}

/// The integer state of a novelty search run.
pub struct NoveltyProgress {
    /// Generations evaluated so far.
    pub generation: u32,
    /// Networks evaluated so far.
    pub total_evaluations: u32,
    /// Evaluations since a behaviour last entered the archive.
    pub evals_since_last_addition: u32,
    /// Key of the smallest final distance to the goal ever seen (positive
    /// infinity at the start).
    pub closest_key: u64,
    /// Generation of the individual whose trajectory is kept as the best.
    pub closest_generation: u32,
    /// Its index within that generation.
    pub closest_individual_idx: usize,
    /// Whether some robot ended within the success distance of the goal.
    pub solved: bool,
    /// Archive additions of the last generation.
    pub last_gen_archive_additions: u32,
}

/// What one generation decided.
pub struct NoveltyStep {
    /// Per individual, whether its behaviour entered the archive.
    pub archived: Vec<bool>,
    /// How many did.
    pub additions: u32,
    /// First individual with the highest novelty of the generation.
    pub best_novelty_idx: usize,
    /// First individual that ended closest to the goal.
    pub closest_idx: usize,
    /// Whether it came closer than every earlier generation.
    pub closer: bool,
    /// Whether it ended within the success distance.
    pub solved: bool,
    /// Whether the kept trajectory is replaced by that of `closest_idx`.
    pub keep_trajectory: bool,
    /// How the archive threshold changes.
    pub threshold: ThresholdChange,
    /// Last individual with the highest novelty: copied unchanged into the
    /// next population as its individual 0.
    pub elite_idx: usize,
    /// Parents of individuals `1..POPULATION_SIZE` of the next population.
    pub tournament_winners: Vec<usize>,
}

impl NoveltyProgress {
    /// A run before its first generation.
    pub fn new() -> (p: Self)
        ensures
            p.generation == 0,
            p.total_evaluations == 0,
            p.evals_since_last_addition == 0,
            p.closest_key == spec_order_key(INFINITY_BITS),
            p.closest_generation == 0,
            p.closest_individual_idx == 0,
            !p.solved,
            p.last_gen_archive_additions == 0,
    {
        NoveltyProgress {
            generation: 0,
            total_evaluations: 0,
            evals_since_last_addition: 0,
            closest_key: order_key(INFINITY_BITS),
            closest_generation: 0,
            closest_individual_idx: 0,
            solved: false,
            last_gen_archive_additions: 0,
        }
    }

    /// Bookkeeping and selection of one generation, given per individual
    /// the key of its novelty score and of its final distance to the goal,
    /// the key of the archive threshold and the key of the success
    /// distance.
    pub fn step_generation(
        &mut self,
        novelty_keys: &Vec<u64>,
        rho_min_key: u64,
        goal_distance_keys: &Vec<u64>,
        success_key: u64,
    ) -> (step: NoveltyStep)
        requires
            novelty_keys@.len() == POPULATION_SIZE,
            goal_distance_keys@.len() == POPULATION_SIZE,
            old(self).generation < u32::MAX,
            old(self).total_evaluations + POPULATION_SIZE <= u32::MAX,
            old(self).evals_since_last_addition + POPULATION_SIZE <= u32::MAX,
        ensures
            final(self).generation == old(self).generation + 1,
            final(self).total_evaluations == old(self).total_evaluations + POPULATION_SIZE,
            step.archived@.len() == POPULATION_SIZE,
            forall|i: int| 0 <= i < POPULATION_SIZE ==> #[trigger] step.archived@[i] == spec_admits(novelty_keys@[i], rho_min_key),
            step.additions == count_true(step.archived@),
            final(self).last_gen_archive_additions == step.additions,
            is_first_max(novelty_keys@, step.best_novelty_idx as int),
            is_first_min(goal_distance_keys@, step.closest_idx as int),
            step.closer == (goal_distance_keys@[step.closest_idx as int] < old(self).closest_key),
            final(self).closest_key == if step.closer {
                goal_distance_keys@[step.closest_idx as int]
            } else {
                old(self).closest_key
            },
            step.solved == (goal_distance_keys@[step.closest_idx as int] <= success_key),
            final(self).solved == (old(self).solved || step.solved),
            step.keep_trajectory == (step.closer || step.solved),
            final(self).closest_generation == if step.keep_trajectory {
                final(self).generation
            } else {
                old(self).closest_generation
            },
            final(self).closest_individual_idx == if step.keep_trajectory {
                step.closest_idx
            } else {
                old(self).closest_individual_idx
            },
            (step.threshold, final(self).evals_since_last_addition) == spec_threshold(
                step.additions,
                old(self).evals_since_last_addition,
            ),
            is_last_max(novelty_keys@, step.elite_idx as int),
            step.tournament_winners@.len() == POPULATION_SIZE - 1,
            forall|m: int| 0 <= m < step.tournament_winners@.len() ==> #[trigger] step.tournament_winners@[m] < POPULATION_SIZE,
            forall|m: int|
                0 <= m < step.tournament_winners@.len() ==> is_tournament_pick(
                    novelty_keys@,
                    #[trigger] step.tournament_winners@[m],
                ),
            // Every generation adds one population's worth of evaluations.
            old(self).total_evaluations == old(self).generation * POPULATION_SIZE
                ==> final(self).total_evaluations == final(self).generation * POPULATION_SIZE,
            // The patience count stays below its limit.
            old(self).evals_since_last_addition < ARCHIVE_PATIENCE ==> final(self).evals_since_last_addition < ARCHIVE_PATIENCE,
            // The closest distance never grows, and covers this generation.
            final(self).closest_key <= old(self).closest_key,
            forall|j: int| 0 <= j < POPULATION_SIZE ==> final(self).closest_key <= #[trigger] goal_distance_keys@[j],
    {
        self.total_evaluations = self.total_evaluations + POPULATION_SIZE as u32;
        self.generation = self.generation + 1;
        let mut archived: Vec<bool> = Vec::new();
        let mut additions: u32 = 0;
        let mut i: usize = 0;
        while i < POPULATION_SIZE
            invariant
                novelty_keys@.len() == POPULATION_SIZE,
                i <= POPULATION_SIZE,
                archived@.len() == i,
                forall|j: int| 0 <= j < i ==> #[trigger] archived@[j] == spec_admits(novelty_keys@[j], rho_min_key),
                additions == count_true(archived@),
                additions <= i,
            decreases POPULATION_SIZE - i,
        {
            let enters = admits_to_archive(novelty_keys[i], rho_min_key);
            proof {
                lemma_count_true_push(archived@, enters);
            }
            archived.push(enters);
            if enters {
                additions = additions + 1;
            }
            i += 1;
        }
        let best_novelty_idx = first_max_index(novelty_keys);
        let closest_idx = first_min_index(goal_distance_keys);
        let closest = goal_distance_keys[closest_idx];
        self.last_gen_archive_additions = additions;
        let closer = closest < self.closest_key;
        if closer {
            self.closest_key = closest;
            self.closest_generation = self.generation;
            self.closest_individual_idx = closest_idx;
        }
        let solved = closest <= success_key;
        if solved {
            self.solved = true;
            self.closest_generation = self.generation;
            self.closest_individual_idx = closest_idx;
        }
        let (threshold, evals) = adapt_threshold(additions, self.evals_since_last_addition);
        self.evals_since_last_addition = evals;
        let elite_idx = last_max_index(novelty_keys);
        let mut rng = thread_rng();
        let mut tournament_winners: Vec<usize> = Vec::new();
        while tournament_winners.len() + 1 < POPULATION_SIZE
            invariant
                novelty_keys@.len() == POPULATION_SIZE,
                tournament_winners@.len() + 1 <= POPULATION_SIZE,
                forall|m: int| 0 <= m < tournament_winners@.len() ==> #[trigger] tournament_winners@[m] < POPULATION_SIZE,
                forall|m: int|
                    0 <= m < tournament_winners@.len() ==> is_tournament_pick(novelty_keys@, #[trigger] tournament_winners@[m]),
            decreases POPULATION_SIZE - tournament_winners@.len(),
        {
            let winner = tournament_select(novelty_keys, &mut rng);
            tournament_winners.push(winner);
            proof {
                assert(tournament_winners@[tournament_winners@.len() - 1] == winner);
            }
        }
        NoveltyStep {
            archived,
            additions,
            best_novelty_idx,
            closest_idx,
            closer,
            solved,
            keep_trajectory: closer || solved,
            threshold,
            elite_idx,
            tournament_winners,
        }
    }
}

} // verus!
