//! Objective-based evolution: the decisions of one generation.
//!
//! Fitness is `SUCCESS_DISTANCE` minus the final distance to the goal, so
//! a fitness of zero or more means the goal was reached. Fitness values come
//! in as ordering keys (`order_key`); the simulation that produces them is
//! not part of this module.
use vstd::prelude::*;
use crate::order_key::{order_key, spec_order_key, NEG_INFINITY_BITS};
use crate::selection::{first_max_index, is_first_max, tournament_select, wins_tournament, POPULATION_SIZE, TOURNAMENT_SIZE};

use crate::rng::thread_rng;

verus! {

/// Key of fitness zero: a generation whose best fitness key reaches it has
/// solved the maze.
pub open spec fn solved_key() -> int {
    spec_order_key(0)
}

/// A parent chosen by tournament selection over `keys`.
pub open spec fn is_tournament_pick(keys: Seq<u64>, winner: usize) -> bool {
    exists|contestants: Seq<usize>, k: int|
        contestants.len() == TOURNAMENT_SIZE
        && (forall|m: int| 0 <= m < contestants.len() ==> #[trigger] contestants[m] < keys.len())
        && #[trigger] wins_tournament(keys, contestants, k, winner)
}

/// The integer state of an evolutionary run.
pub struct EvolutionProgress {
    /// Generations evaluated so far.
    pub generation: u32,
    /// Networks evaluated so far.
    pub total_evaluations: u32,
    /// Key of the best fitness ever seen (negative infinity at the start).
    pub best_key: u64,
    /// Whether some generation reached the goal.
    pub solved: bool,
}

/// What one generation decided.
pub struct EvolutionStep {
    /// Index of the first individual with the best fitness of the generation.
    pub best_idx: usize,
    /// Whether that fitness beats every earlier generation; the best network
    /// and its trajectory are then replaced.
    pub improved: bool,
    /// Whether the generation reached the goal; no new population is bred.
    pub solved: bool,
    /// Parents of individuals `1..POPULATION_SIZE` of the next population
    /// (individual 0 is the unchanged best); empty when solved.
    pub parents: Vec<usize>,
}

impl EvolutionProgress {
    /// A run before its first generation.
    pub fn new() -> (p: Self)
        ensures
            p.generation == 0,
            p.total_evaluations == 0,
            p.best_key == spec_order_key(NEG_INFINITY_BITS),
            !p.solved,
    {
        EvolutionProgress {
            generation: 0,
            total_evaluations: 0,
            best_key: order_key(NEG_INFINITY_BITS),
            solved: false,
        }
    }

    /// Bookkeeping and selection of one generation, given the fitness key of
    /// every individual: the first best individual, whether it beats the
    /// best so far, whether the goal was reached, and, if not, the parents
    /// of the next population by tournament selection.
    pub fn step_generation(&mut self, fitness_keys: &Vec<u64>) -> (step: EvolutionStep)
        requires
            fitness_keys@.len() == POPULATION_SIZE,
            old(self).generation < u32::MAX,
            old(self).total_evaluations + POPULATION_SIZE <= u32::MAX,
        ensures
            is_first_max(fitness_keys@, step.best_idx as int),
            final(self).generation == old(self).generation + 1,
            final(self).total_evaluations == old(self).total_evaluations + POPULATION_SIZE,
            step.improved == (fitness_keys@[step.best_idx as int] > old(self).best_key),
            final(self).best_key == if step.improved {
                fitness_keys@[step.best_idx as int]
            } else {
                old(self).best_key
            },
            step.solved == (fitness_keys@[step.best_idx as int] >= solved_key()),
            final(self).solved == (old(self).solved || step.solved),
            step.solved ==> step.parents@.len() == 0,
            !step.solved ==> step.parents@.len() == POPULATION_SIZE - 1,
            forall|m: int| 0 <= m < step.parents@.len() ==> #[trigger] step.parents@[m] < POPULATION_SIZE,
            forall|m: int|
                0 <= m < step.parents@.len() ==> is_tournament_pick(fitness_keys@, #[trigger] step.parents@[m]),
            // Every generation adds one population's worth of evaluations.
            old(self).total_evaluations == old(self).generation * POPULATION_SIZE
                ==> final(self).total_evaluations == final(self).generation * POPULATION_SIZE,
            // The best key never falls and covers the whole generation.
            final(self).best_key >= old(self).best_key,
            forall|j: int| 0 <= j < fitness_keys@.len() ==> #[trigger] fitness_keys@[j] <= final(self).best_key,
    {
        let best_idx = first_max_index(fitness_keys);
        let best = fitness_keys[best_idx];
        self.total_evaluations = self.total_evaluations + POPULATION_SIZE as u32;
        self.generation = self.generation + 1;
        let improved = best > self.best_key;
        if improved {
            self.best_key = best;
        }
        let solved = best >= order_key(0);
        if solved {
            self.solved = true;
            return EvolutionStep { best_idx, improved, solved, parents: Vec::new() };
        }
        let mut rng = thread_rng();
        let mut parents: Vec<usize> = Vec::new();
        while parents.len() + 1 < POPULATION_SIZE
            invariant
                fitness_keys@.len() == POPULATION_SIZE,
                parents@.len() + 1 <= POPULATION_SIZE,
                forall|m: int| 0 <= m < parents@.len() ==> #[trigger] parents@[m] < POPULATION_SIZE,
                forall|m: int|
                    0 <= m < parents@.len() ==> is_tournament_pick(fitness_keys@, #[trigger] parents@[m]),
            decreases POPULATION_SIZE - parents@.len(),
        {
            let winner = tournament_select(fitness_keys, &mut rng);
            parents.push(winner);
            proof {
                assert(parents@[parents@.len() - 1] == winner);
            }
        }
        EvolutionStep { best_idx, improved, solved, parents }
    }
}

} // verus!
