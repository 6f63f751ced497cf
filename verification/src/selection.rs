//! Choosing individuals by their ordering keys (see `order_key`).
use vstd::prelude::*;
use crate::rng::random_index;
use rand::rngs::ThreadRng;

verus! {

/// Number of individuals in a population.
pub const POPULATION_SIZE: usize = 150;

/// Number of robot steps in one evaluation.
pub const TIMESTEPS: u32 = 400;

/// Number of contestants drawn for one tournament.
pub const TOURNAMENT_SIZE: usize = 3;

/// `i` holds the largest key, and no earlier index does.
pub open spec fn is_first_max(keys: Seq<u64>, i: int) -> bool {
    &&& 0 <= i < keys.len()
    &&& forall|j: int| 0 <= j < keys.len() ==> keys[j] <= keys[i]
    &&& forall|j: int| 0 <= j < i ==> keys[j] < keys[i]
}

/// `i` holds the largest key, and no later index does.
pub open spec fn is_last_max(keys: Seq<u64>, i: int) -> bool {
    &&& 0 <= i < keys.len()
    &&& forall|j: int| 0 <= j < keys.len() ==> keys[j] <= keys[i]
    &&& forall|j: int| i < j < keys.len() ==> keys[j] < keys[i]
}

/// `i` holds the smallest key, and no earlier index does.
pub open spec fn is_first_min(keys: Seq<u64>, i: int) -> bool {
    &&& 0 <= i < keys.len()
    &&& forall|j: int| 0 <= j < keys.len() ==> keys[i] <= keys[j]
    &&& forall|j: int| 0 <= j < i ==> keys[i] < keys[j]
}

/// Tournament outcome: `winner` is the contestant at position `k`, whose key
/// is the largest among all contestants and strictly larger than that of
/// every contestant drawn before it.
pub open spec fn wins_tournament(keys: Seq<u64>, contestants: Seq<usize>, k: int, winner: usize) -> bool {
    &&& 0 <= k < contestants.len()
    &&& contestants[k] == winner
    &&& forall|m: int| 0 <= m < contestants.len() ==> keys[contestants[m] as int] <= keys[winner as int]
    &&& forall|m: int| 0 <= m < k ==> keys[contestants[m] as int] < keys[winner as int]
}

/// A tournament winner is one of the contestants drawn, and no contestant
/// drawn has a larger key.
pub proof fn tournament_winner_is_best_drawn(keys: Seq<u64>, contestants: Seq<usize>, k: int, winner: usize)
    requires
        wins_tournament(keys, contestants, k, winner),
    ensures
        contestants.contains(winner),
        forall|m: int| 0 <= m < contestants.len() ==> keys[#[trigger] contestants[m] as int] <= keys[winner as int],
{
}

/// The draws decide the tournament: for given contestants there is only
/// one winner, the first drawn contestant holding the largest key.
pub proof fn tournament_winner_unique(
    keys: Seq<u64>,
    contestants: Seq<usize>,
    k1: int,
    w1: usize,
    k2: int,
    w2: usize,
)
    requires
        wins_tournament(keys, contestants, k1, w1),
        wins_tournament(keys, contestants, k2, w2),
    ensures
        k1 == k2,
        w1 == w2,
{
    if k1 < k2 {
        assert(keys[contestants[k1] as int] < keys[w2 as int]);
        assert(keys[contestants[k2] as int] <= keys[w1 as int]);
    } else if k2 < k1 {
        assert(keys[contestants[k2] as int] < keys[w1 as int]);
        assert(keys[contestants[k1] as int] <= keys[w2 as int]);
    }
}

/// Index of the first largest key: what a scan keeping the best so far,
/// replaced only by a strictly larger key, ends with.
pub fn first_max_index(keys: &Vec<u64>) -> (i: usize)
    requires
        keys@.len() > 0,
    ensures
        is_first_max(keys@, i as int),
{
    let mut best: usize = 0;
    let mut j: usize = 1;
    while j < keys.len()
        invariant
            1 <= j <= keys@.len(),
            is_first_max(keys@.take(j as int), best as int),
        decreases keys@.len() - j,
    {
        if keys[j] > keys[best] {
            best = j;
        }
        j += 1;
    }
    assert(keys@.take(keys@.len() as int) =~= keys@);
    best
}

/// Index of the last largest key, as `Iterator::max_by` returns it.
pub fn last_max_index(keys: &Vec<u64>) -> (i: usize)
    requires
        keys@.len() > 0,
    ensures
        is_last_max(keys@, i as int),
{
    let mut best: usize = 0;
    let mut j: usize = 1;
    while j < keys.len()
        invariant
            1 <= j <= keys@.len(),
            is_last_max(keys@.take(j as int), best as int),
        decreases keys@.len() - j,
    {
        if keys[j] >= keys[best] {
            best = j;
        }
        j += 1;
    }
    assert(keys@.take(keys@.len() as int) =~= keys@);
    best
}

/// Index of the first smallest key.
pub fn first_min_index(keys: &Vec<u64>) -> (i: usize)
    requires
        keys@.len() > 0,
    ensures
        is_first_min(keys@, i as int),
{
    let mut best: usize = 0;
    let mut j: usize = 1;
    while j < keys.len()
        invariant
            1 <= j <= keys@.len(),
            is_first_min(keys@.take(j as int), best as int),
        decreases keys@.len() - j,
    {
        if keys[j] < keys[best] {
            best = j;
        }
        j += 1;
    }
    assert(keys@.take(keys@.len() as int) =~= keys@);
    best
}

/// Winner of a tournament among the given contestants (indices into
/// `keys`): the first contestant with the largest key.
pub fn tournament_winner(keys: &Vec<u64>, contestants: &Vec<usize>) -> (winner: usize)
    requires
        contestants@.len() > 0,
        forall|m: int| 0 <= m < contestants@.len() ==> #[trigger] contestants@[m] < keys@.len(),
    ensures
        exists|k: int| wins_tournament(keys@, contestants@, k, winner),
        winner < keys@.len(),
{
    let mut best: usize = contestants[0];
    let ghost mut k: int = 0;
    let mut m: usize = 1;
    while m < contestants.len()
        invariant
            1 <= m <= contestants@.len(),
            forall|q: int| 0 <= q < contestants@.len() ==> #[trigger] contestants@[q] < keys@.len(),
            wins_tournament(keys@, contestants@.take(m as int), k, best),
        decreases contestants@.len() - m,
    {
        let idx = contestants[m];
        if keys[idx] > keys[best] {
            best = idx;
            proof {
                k = m as int;
            }
        }
        m += 1;
    }
    assert(contestants@.take(contestants@.len() as int) =~= contestants@);
    assert(wins_tournament(keys@, contestants@, k, best));
    best
}

/// Tournament selection: draws `TOURNAMENT_SIZE` contestants uniformly
/// (with replacement) and returns the first one with the largest key.
pub fn tournament_select(keys: &Vec<u64>, rng: &mut ThreadRng) -> (winner: usize)
    requires
        keys@.len() > 0,
    ensures
        winner < keys@.len(),
        exists|contestants: Seq<usize>, k: int|
            contestants.len() == TOURNAMENT_SIZE
            && (forall|m: int| 0 <= m < contestants.len() ==> #[trigger] contestants[m] < keys@.len())
            && #[trigger] wins_tournament(keys@, contestants, k, winner),
{
    let mut contestants: Vec<usize> = Vec::new();
    while contestants.len() < TOURNAMENT_SIZE
        invariant
            contestants@.len() <= TOURNAMENT_SIZE,
            keys@.len() > 0,
            forall|m: int| 0 <= m < contestants@.len() ==> #[trigger] contestants@[m] < keys@.len(),
        decreases TOURNAMENT_SIZE - contestants@.len(),
    {
        contestants.push(random_index(rng, keys.len()));
    }
    let winner = tournament_winner(keys, &contestants);
    let ghost k = choose|k: int| wins_tournament(keys@, contestants@, k, winner);
    assert(wins_tournament(keys@, contestants@, k, winner));
    winner
}

} // verus!
