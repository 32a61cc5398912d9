//! Parent selection by binary (or larger) tournaments on rank and crowding.
use vstd::prelude::*;
use rand::rngs::SmallRng;

use crate::random::{gen_index, rng_from_seed};

verus! {

/// Whether `(rank_a, crowd_a)` is preferred to `(rank_b, crowd_b)`: a lower rank wins, and on
/// equal rank the larger crowding distance wins.
pub open spec fn preferred(rank_a: usize, crowd_a: i64, rank_b: usize, crowd_b: i64) -> bool {
    rank_a < rank_b || (rank_a == rank_b && crowd_a > crowd_b)
}

/// Entrant `a` beats entrant `b` under the ranks and crowding keys of the population.
pub open spec fn beats(ranks: Seq<usize>, crowding: Seq<i64>, a: int, b: int) -> bool {
    preferred(ranks[a], crowding[a], ranks[b], crowding[b])
}

/// The winner of a tournament whose entrants, in order of drawing, are `entrants`: the
/// first entrant holds the lead, and each later one takes it over when it beats the
/// current leader.
pub open spec fn tournament_winner(ranks: Seq<usize>, crowding: Seq<i64>, entrants: Seq<usize>) -> usize
    decreases entrants.len(),
{
    if entrants.len() <= 1 {
        entrants[0]
    } else {
        let lead = tournament_winner(ranks, crowding, entrants.drop_last());
        if beats(ranks, crowding, entrants.last() as int, lead as int) {
            entrants.last()
        } else {
            lead
        }
    }
}

/// A tournament's winner is one of its entrants, and no entrant beats it: preference is a
/// strict order, so the lead only ever passes to a better entrant.
pub proof fn lemma_winner_unbeaten(ranks: Seq<usize>, crowding: Seq<i64>, entrants: Seq<usize>)
    requires
        entrants.len() >= 1,
    ensures
        entrants.contains(tournament_winner(ranks, crowding, entrants)),
        forall|j: int|
            0 <= j < entrants.len() ==> !beats(
                ranks,
                crowding,
                #[trigger] entrants[j] as int,
                tournament_winner(ranks, crowding, entrants) as int,
            ),
    decreases entrants.len(),
{
    if entrants.len() > 1 {
        let rest = entrants.drop_last();
        lemma_winner_unbeaten(ranks, crowding, rest);
        let lead = tournament_winner(ranks, crowding, rest);
        let w = tournament_winner(ranks, crowding, entrants);
        let last = entrants.last();
        assert(rest.contains(lead));
        assert forall|j: int| 0 <= j < entrants.len() implies !beats(
            ranks,
            crowding,
            #[trigger] entrants[j] as int,
            w as int,
        ) by {
            if j < entrants.len() - 1 {
                assert(entrants[j] == rest[j]);
                assert(!beats(ranks, crowding, rest[j] as int, lead as int));
            }
        }
        if w == lead {
            let k = choose|k: int| 0 <= k < rest.len() && rest[k] == lead;
            assert(entrants[k] == lead);
        } else {
            assert(entrants[entrants.len() - 1] == w);
        }
    } else {
        assert(entrants[0] == tournament_winner(ranks, crowding, entrants));
    }
}

/// Returns whether `(rank_a, crowd_a)` is preferred to `(rank_b, crowd_b)`: lower rank wins;
/// on equal rank, the higher crowding distance (as an order key) wins.
pub fn crowding_compare(rank_a: usize, crowd_a: i64, rank_b: usize, crowd_b: i64) -> (r: bool)
    ensures
        r == preferred(rank_a, crowd_a, rank_b, crowd_b),
{
    rank_a < rank_b || (rank_a == rank_b && crowd_a > crowd_b)
}

/// The winner of the tournament between `entrants`, taken in order: the first entrant leads,
/// and each later one takes the lead when it is preferred to the current leader by rank and
/// crowding distance (an order key).
pub fn tournament(ranks: &[usize], crowding: &[i64], entrants: &[usize]) -> (w: usize)
    requires
        entrants@.len() >= 1,
        forall|j: int| 0 <= j < entrants@.len() ==> #[trigger] entrants@[j] < ranks@.len(),
        entrants@.len() > 1 ==> crowding@.len() >= ranks@.len(),
    ensures
        w == tournament_winner(ranks@, crowding@, entrants@),
        entrants@.contains(w),
        forall|j: int| 0 <= j < entrants@.len() ==> !beats(ranks@, crowding@, #[trigger] entrants@[j] as int, w as int),
        forall|j: int|
            0 <= j < entrants@.len() ==> !(ranks@[#[trigger] entrants@[j] as int] < ranks@[w as int] || (
            ranks@[entrants@[j] as int] == ranks@[w as int] && crowding@[entrants@[j] as int] > crowding@[w as int])),
{
    let mut winner = entrants[0];
    let mut j: usize = 1;
    assert(entrants@.take(1) =~= seq![entrants@[0]]);
    while j < entrants.len()
        invariant
            1 <= j <= entrants@.len(),
            forall|k: int| 0 <= k < entrants@.len() ==> #[trigger] entrants@[k] < ranks@.len(),
            entrants@.len() > 1 ==> crowding@.len() >= ranks@.len(),
            winner == tournament_winner(ranks@, crowding@, entrants@.take(j as int)),
            winner < ranks@.len(),
        decreases entrants.len() - j,
    {
        let challenger = entrants[j];
        assert(entrants@.take(j + 1).drop_last() =~= entrants@.take(j as int));
        if crowding_compare(ranks[challenger], crowding[challenger], ranks[winner], crowding[winner]) {
            winner = challenger;
        }
        j = j + 1;
    }
    assert(entrants@.take(entrants@.len() as int) =~= entrants@);
    proof {
        lemma_winner_unbeaten(ranks@, crowding@, entrants@);
    }
    winner
}

/// Tournament selection on rank and crowding distance, NSGA-II style.
pub struct CrowdingTournamentSelector {
    tournament_size: usize,
    rng: SmallRng,
    drawn: Ghost<Seq<Seq<usize>>>,
}

impl CrowdingTournamentSelector {
    /// The number of entrants per tournament.
    pub closed spec fn size(&self) -> usize {
        self.tournament_size
    }

    /// The entrants of each tournament of the latest selection, in order of drawing.
    pub closed spec fn tournaments(&self) -> Seq<Seq<usize>> {
        self.drawn@
    }

    /// A selector holding tournaments of `tournament_size` entrants, with its generator
    /// seeded from `seed`.
    pub fn new(tournament_size: usize, seed: u64) -> (s: Self)
        ensures
            s.size() == tournament_size,
    {
        CrowdingTournamentSelector { tournament_size, rng: rng_from_seed(seed), drawn: Ghost(Seq::empty()) }
    }

    /// Selects `n` indices of a population whose front ranks are `ranks` and whose crowding
    /// distances (as order keys) are `crowding`. For each, the entrants of a tournament of
    /// `size()` entrants (one when the size is 0) are drawn at random from the population,
    /// and the pick is their [`tournament`] winner: one of the entrants, and no entrant has a
    /// lower rank, or an equal rank and a larger crowding distance. The entrants drawn for
    /// pick `i` are `tournaments()[i]`.
    pub fn select_indices(&mut self, n: usize, ranks: &[usize], crowding: &[i64]) -> (selected: Vec<usize>)
        requires
            n > 0 ==> ranks@.len() > 0,
            n > 0 && old(self).size() > 1 ==> crowding@.len() >= ranks@.len(),
        ensures
            final(self).size() == old(self).size(),
            selected@.len() == n,
            forall|i: int| 0 <= i < n ==> #[trigger] selected@[i] < ranks@.len(),
            final(self).tournaments().len() == n,
            forall|i: int|
                0 <= i < n ==> (#[trigger] final(self).tournaments()[i]).len() == (if old(self).size() == 0 {
                    1
                } else {
                    old(self).size()
                }),
            forall|i: int, j: int|
                0 <= i < n && 0 <= j < final(self).tournaments()[i].len() ==> #[trigger] final(self).tournaments()[i][j]
                    < ranks@.len(),
            forall|i: int| 0 <= i < n ==> final(self).tournaments()[i].contains(#[trigger] selected@[i]),
            forall|i: int, j: int|
                0 <= i < n && 0 <= j < final(self).tournaments()[i].len() ==> {
                    let e = #[trigger] final(self).tournaments()[i][j] as int;
                    let w = selected@[i] as int;
                    !(ranks@[e] < ranks@[w] || (ranks@[e] == ranks@[w] && crowding@[e] > crowding@[w]))
                },
            forall|i: int|
                0 <= i < n ==> #[trigger] selected@[i] == tournament_winner(
                    ranks@,
                    crowding@,
                    final(self).tournaments()[i],
                ),
    {
        let pop_len = ranks.len();
        let entrant_count = if self.tournament_size == 0 { 1 } else { self.tournament_size };
        let mut results: Vec<usize> = Vec::new();
        let ghost mut drawn: Seq<Seq<usize>> = Seq::empty();
        let mut t: usize = 0;
        while t < n
            invariant
                t <= n,
                results@.len() == t,
                drawn.len() == t,
                entrant_count == (if old(self).size() == 0 { 1 } else { old(self).size() }),
                forall|i: int| 0 <= i < t ==> (#[trigger] drawn[i]).len() == entrant_count,
                forall|i: int, j: int| 0 <= i < t && 0 <= j < drawn[i].len() ==> #[trigger] drawn[i][j] < pop_len,
                forall|i: int| 0 <= i < t ==> #[trigger] results@[i] == tournament_winner(ranks@, crowding@, drawn[i]),
                pop_len == ranks@.len(),
                self.size() == old(self).size(),
                entrant_count >= 1,
                entrant_count > 1 ==> self.size() > 1,
                n > 0 ==> pop_len > 0,
                n > 0 && self.size() > 1 ==> crowding@.len() >= pop_len,
                forall|i: int| 0 <= i < t ==> #[trigger] results@[i] < pop_len,
            decreases n - t,
        {
            let mut entrants: Vec<usize> = Vec::new();
            while entrants.len() < entrant_count
                invariant
                    entrants@.len() <= entrant_count,
                    pop_len == ranks@.len(),
                    pop_len > 0,
                    self.size() == old(self).size(),
                    forall|j: int| 0 <= j < entrants@.len() ==> #[trigger] entrants@[j] < pop_len,
                decreases entrant_count - entrants.len(),
            {
                let e = gen_index(&mut self.rng, pop_len);
                entrants.push(e);
            }
            let winner = tournament(ranks, crowding, &entrants);
            proof {
                let k = choose|k: int| 0 <= k < entrants@.len() && entrants@[k] == winner;
                drawn = drawn.push(entrants@);
            }
            results.push(winner);
            t = t + 1;
        }
        self.drawn = Ghost(drawn);
        proof {
            assert forall|i: int| 0 <= i < n implies drawn[i].contains(#[trigger] results@[i]) && (forall|j: int|
                0 <= j < drawn[i].len() ==> {
                    let e = #[trigger] drawn[i][j] as int;
                    let w = results@[i] as int;
                    !(ranks@[e] < ranks@[w] || (ranks@[e] == ranks@[w] && crowding@[e] > crowding@[w]))
                }) by {
                lemma_winner_unbeaten(ranks@, crowding@, drawn[i]);
                assert forall|j: int| 0 <= j < drawn[i].len() implies {
                    let e = #[trigger] drawn[i][j] as int;
                    let w = results@[i] as int;
                    !(ranks@[e] < ranks@[w] || (ranks@[e] == ranks@[w] && crowding@[e] > crowding@[w]))
                } by {
                    assert(!beats(ranks@, crowding@, drawn[i][j] as int, results@[i] as int));
                }
            }
        }
        results
    }
}

} // verus!
