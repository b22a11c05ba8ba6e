//! A player's record: the current rating, the mixture behind it and the
//! history of contests.
//!
//! The numbers of a record are computed elsewhere. This module keeps them in
//! shape: the mixture's two sequences grow together, one component for each
//! contest, and the history grows with them.

use crate::scalar::Scalar;
use vstd::prelude::*;

verus! {

/// The contest id of the entry that opens every history.
pub const SENTINEL_CONTEST: i64 = -1;

/// One line of a player's history: the contest, the performance in it, the
/// rating after it, the best position of the player's score in the contest and
/// the player's rank by rating after it. A rating rank of 0 has not been
/// assigned yet.
#[derive(Clone, Copy, Debug, PartialEq, Eq, Structural)]
pub struct PlayerHistoryEntry {
    pub contest_id: i64,
    pub perf: Scalar,
    pub rating: Scalar,
    pub contest_rank: usize,
    pub rating_rank: usize,
}

impl PlayerHistoryEntry {
    /// The entry that opens the history of a player who starts at `mu`.
    pub open spec fn sentinel(mu: Scalar) -> PlayerHistoryEntry {
        PlayerHistoryEntry {
            contest_id: SENTINEL_CONTEST,
            perf: mu,
            rating: mu,
            contest_rank: 0,
            rating_rank: 0,
        }
    }
}

/// What the diffusion step computed for one player: the inflated deviation,
/// the new prior anchor, the rebalanced weights (one for each component of the
/// mixture), and the effective deviation for the contest at hand.
#[derive(Debug)]
pub struct Diffusion {
    pub sigma: Scalar,
    pub anchor: Scalar,
    pub weights: Vec<Scalar>,
    pub delta: Scalar,
}

/// What the two estimation steps computed for one player in one contest: the
/// performance, the weight with which it enters the mixture, and the rating
/// and the deviation that the mixture then gives.
#[derive(Clone, Copy, Debug, PartialEq, Eq, Structural)]
pub struct Outcome {
    pub perf: Scalar,
    pub weight: Scalar,
    pub rating: Scalar,
    pub sigma: Scalar,
}

/// A player's record.
#[derive(Debug)]
pub struct Player {
    mu: Scalar,
    mu_pi: Scalar,
    sigma: Scalar,
    delta: Scalar,
    perfs: Vec<Scalar>,
    weights: Vec<Scalar>,
    history: Vec<PlayerHistoryEntry>,
}

/// The mathematical content of a player's record.
pub ghost struct PlayerView {
    pub mu: Scalar,
    pub mu_pi: Scalar,
    pub sigma: Scalar,
    pub delta: Scalar,
    pub perfs: Seq<Scalar>,
    pub weights: Seq<Scalar>,
    pub history: Seq<PlayerHistoryEntry>,
}

impl PlayerView {
    /// The shape of every record: as many weights as performances, one
    /// history entry for each of them, and the sentinel entry first.
    pub open spec fn wf(self) -> bool {
        &&& self.perfs.len() >= 1
        &&& self.weights.len() == self.perfs.len()
        &&& self.history.len() == self.perfs.len()
        &&& self.history[0].contest_id == SENTINEL_CONTEST
        &&& self.history[0].contest_rank == 0
        &&& self.history[0].rating_rank == 0
    }

    /// How many contests the record has taken in.
    pub open spec fn contests(self) -> int {
        self.history.len() - 1
    }

    /// Every contest of the record has its rating rank.
    pub open spec fn ranked(self) -> bool {
        forall|k: int| 1 <= k < self.history.len() ==> (#[trigger] self.history[k]).rating_rank >= 1
    }

    /// The record of a player who has not been in a contest.
    pub open spec fn fresh(mu: Scalar, sigma: Scalar, prior_weight: Scalar) -> PlayerView {
        PlayerView {
            mu,
            mu_pi: Scalar { key: 0 },
            sigma,
            delta: Scalar { key: 0 },
            perfs: seq![mu],
            weights: seq![prior_weight],
            history: seq![PlayerHistoryEntry::sentinel(mu)],
        }
    }

    /// Whether a diffusion step may have given this deviation and these
    /// weights: diffusion never lowers the deviation, and it has a weight for
    /// each component of the mixture.
    pub open spec fn admits_diffusion(self, sigma: Scalar, weights: Seq<Scalar>) -> bool {
        &&& weights.len() == self.weights.len()
        &&& sigma.key >= self.sigma.key
    }

    /// Whether folding a contest in may have given this outcome: a contest
    /// lowers the deviation.
    pub open spec fn admits_outcome(self, outcome: Outcome) -> bool {
        outcome.sigma.key < self.sigma.key
    }

    /// The record after a diffusion step.
    pub open spec fn diffused(
        self,
        sigma: Scalar,
        anchor: Scalar,
        weights: Seq<Scalar>,
        delta: Scalar,
    ) -> PlayerView {
        PlayerView {
            mu_pi: self.mu,
            sigma,
            delta,
            perfs: self.perfs.update(0, anchor),
            weights,
            ..self
        }
    }

    /// The record after a contest has been folded in, its rating rank still
    /// to come.
    pub open spec fn updated(self, contest_id: i64, outcome: Outcome, contest_rank: usize)
        -> PlayerView {
        PlayerView {
            mu: outcome.rating,
            sigma: outcome.sigma,
            perfs: self.perfs.push(outcome.perf),
            weights: self.weights.push(outcome.weight),
            history: self.history.push(
                PlayerHistoryEntry {
                    contest_id,
                    perf: outcome.perf,
                    rating: outcome.rating,
                    contest_rank,
                    rating_rank: 0,
                },
            ),
            ..self
        }
    }

    /// The record after its latest entry, if that is the entry of a contest
    /// and still lacks a rating rank, has been given `rank`.
    pub open spec fn backfilled(self, rank: usize) -> PlayerView {
        let last = self.history.last();
        if self.history.len() >= 2 && last.rating_rank == 0 {
            PlayerView {
                history: self.history.update(
                    self.history.len() - 1,
                    PlayerHistoryEntry { rating_rank: rank, ..last },
                ),
                ..self
            }
        } else {
            self
        }
    }
}

/// Giving a rank to a record twice is giving it once.
pub proof fn lemma_backfilled_twice(record: PlayerView, rank: usize)
    requires
        rank >= 1,
    ensures
        record.backfilled(rank).backfilled(rank) == record.backfilled(rank),
{
    let once = record.backfilled(rank);
    if record.history.len() >= 2 && record.history.last().rating_rank == 0 {
        assert(once.history.last().rating_rank == rank);
    }
}

/// A record that was well-formed and ranked is so again after a contest has
/// been folded in and its rank has been given, and it is one contest longer.
pub proof fn lemma_contest_folded(
    record: PlayerView,
    contest_id: i64,
    outcome: Outcome,
    contest_rank: usize,
    rank: usize,
)
    requires
        record.wf(),
        record.ranked(),
        rank >= 1,
    ensures
        record.updated(contest_id, outcome, contest_rank).backfilled(rank).wf(),
        record.updated(contest_id, outcome, contest_rank).backfilled(rank).ranked(),
        record.updated(contest_id, outcome, contest_rank).backfilled(rank).contests()
            == record.contests() + 1,
        record.updated(contest_id, outcome, contest_rank).backfilled(rank).history.last() == (
        PlayerHistoryEntry {
            contest_id,
            perf: outcome.perf,
            rating: outcome.rating,
            contest_rank,
            rating_rank: rank,
        }),
        record.updated(contest_id, outcome, contest_rank).backfilled(rank).mu == outcome.rating,
        record.updated(contest_id, outcome, contest_rank).backfilled(rank).sigma == outcome.sigma,
{
    let folded = record.updated(contest_id, outcome, contest_rank);
    let done = folded.backfilled(rank);
    assert(folded.history.last().rating_rank == 0);
    assert forall|k: int| 1 <= k < done.history.len() implies (#[trigger] done.history[k]).rating_rank
        >= 1 by {
        if k < record.history.len() {
            assert(done.history[k] == record.history[k]);
        }
    }
}

/// Over one contest the deviation first does not fall and then falls: a
/// record that admits the diffusion, and after it the outcome, ends the
/// contest with the outcome's deviation, strictly below the diffused one.
pub proof fn lemma_deviation_over_contest(
    record: PlayerView,
    sigma: Scalar,
    anchor: Scalar,
    weights: Seq<Scalar>,
    delta: Scalar,
    contest_id: i64,
    outcome: Outcome,
    contest_rank: usize,
)
    requires
        record.admits_diffusion(sigma, weights),
        record.diffused(sigma, anchor, weights, delta).admits_outcome(outcome),
    ensures
        record.diffused(sigma, anchor, weights, delta).sigma.key >= record.sigma.key,
        record.diffused(sigma, anchor, weights, delta).updated(
            contest_id,
            outcome,
            contest_rank,
        ).sigma == outcome.sigma,
        record.diffused(sigma, anchor, weights, delta).updated(
            contest_id,
            outcome,
            contest_rank,
        ).sigma.key < record.diffused(sigma, anchor, weights, delta).sigma.key,
{
}

/// A ranked record is not changed by a rank that comes late.
pub proof fn lemma_backfilled_ranked(record: PlayerView, rank: usize)
    requires
        record.wf(),
        record.ranked(),
    ensures
        record.backfilled(rank) == record,
{
    if record.history.len() >= 2 {
        assert(record.history[record.history.len() - 1].rating_rank >= 1);
    }
}

/// What one contest brings to a record: the result of the diffusion step,
/// the contest's id, the outcome, the best position of the player's score, and
/// the rank of the new rating.
pub ghost struct ContestRecord {
    pub sigma: Scalar,
    pub anchor: Scalar,
    pub weights: Seq<Scalar>,
    pub delta: Scalar,
    pub contest_id: i64,
    pub outcome: Outcome,
    pub contest_rank: usize,
    pub rating_rank: usize,
}

/// The record after a run of contests, each diffused, folded in and ranked in
/// its turn.
pub open spec fn after_contests(start: PlayerView, contests: Seq<ContestRecord>) -> PlayerView
    decreases contests.len(),
{
    if contests.len() == 0 {
        start
    } else {
        let contest = contests.last();
        after_contests(start, contests.drop_last()).diffused(
            contest.sigma,
            contest.anchor,
            contest.weights,
            contest.delta,
        ).updated(contest.contest_id, contest.outcome, contest.contest_rank).backfilled(
            contest.rating_rank,
        )
    }
}

/// After `k` contests a record has `k` more performances, weights and
/// history entries than it began with, the last of them with its rating rank;
/// so the record of a newcomer has `k + 1` of each. This holds whenever each
/// diffusion brings as many weights as the mixture has components by then, and
/// each rating rank is at least 1.
pub proof fn lemma_after_contests(start: PlayerView, contests: Seq<ContestRecord>)
    requires
        start.wf(),
        start.ranked(),
        forall|k: int|
            0 <= k < contests.len() ==> {
                &&& (#[trigger] contests[k]).weights.len() == start.weights.len() + k
                &&& contests[k].rating_rank >= 1
            },
    ensures
        after_contests(start, contests).wf(),
        after_contests(start, contests).ranked(),
        after_contests(start, contests).history.len() == start.history.len() + contests.len(),
        after_contests(start, contests).perfs.len() == start.perfs.len() + contests.len(),
        after_contests(start, contests).weights.len() == start.weights.len() + contests.len(),
        after_contests(start, contests).contests() == start.contests() + contests.len(),
    decreases contests.len(),
{
    if contests.len() > 0 {
        let contest = contests.last();
        let earlier = contests.drop_last();
        assert forall|k: int| 0 <= k < earlier.len() implies {
            &&& (#[trigger] earlier[k]).weights.len() == start.weights.len() + k
            &&& earlier[k].rating_rank >= 1
        } by {
            assert(earlier[k] == contests[k]);
        }
        lemma_after_contests(start, earlier);
        let diffused = after_contests(start, earlier).diffused(
            contest.sigma,
            contest.anchor,
            contest.weights,
            contest.delta,
        );
        assert(diffused.wf());
        assert(diffused.ranked());
        lemma_contest_folded(
            diffused,
            contest.contest_id,
            contest.outcome,
            contest.contest_rank,
            contest.rating_rank,
        );
    }
}

impl View for Player {
    type V = PlayerView;

    closed spec fn view(&self) -> PlayerView {
        PlayerView {
            mu: self.mu,
            mu_pi: self.mu_pi,
            sigma: self.sigma,
            delta: self.delta,
            perfs: self.perfs@,
            weights: self.weights@,
            history: self.history@,
        }
    }
}

impl Player {
    /// The record of a newcomer with rating `mu` and deviation `sigma`, whose
    /// prior enters the mixture with `prior_weight`.
    pub fn new(mu: Scalar, sigma: Scalar, prior_weight: Scalar) -> (player: Player)
        ensures
            player@ == PlayerView::fresh(mu, sigma, prior_weight),
            player@.wf(),
            player@.ranked(),
    {
        let mut perfs = Vec::new();
        perfs.push(mu);
        let mut weights = Vec::new();
        weights.push(prior_weight);
        let mut history = Vec::new();
        history.push(
            PlayerHistoryEntry {
                contest_id: SENTINEL_CONTEST,
                perf: mu,
                rating: mu,
                contest_rank: 0,
                rating_rank: 0,
            },
        );
        let player = Player {
            mu,
            mu_pi: Scalar { key: 0 },
            sigma,
            delta: Scalar { key: 0 },
            perfs,
            weights,
            history,
        };
        assert(player@.perfs =~= seq![mu]);
        assert(player@.weights =~= seq![prior_weight]);
        assert(player@.history =~= seq![PlayerHistoryEntry::sentinel(mu)]);
        player
    }

    /// Takes in the result of a diffusion step: the deviation, the prior
    /// anchor and all weights are replaced, and the rating before the contest
    /// is noted with the effective deviation. A result that the record does
    /// not admit is refused, and the record stays as it is.
    ///
    /// Either way the record keeps its rating, its history, the number of its
    /// performances and all of them but the prior anchor, and has as many
    /// weights as performances.
    pub fn diffuse(&mut self, diffusion: Diffusion) -> (taken: bool)
        requires
            old(self)@.wf(),
        ensures
            taken == old(self)@.admits_diffusion(diffusion.sigma, diffusion.weights@),
            taken ==> final(self)@ == old(self)@.diffused(
                diffusion.sigma,
                diffusion.anchor,
                diffusion.weights@,
                diffusion.delta,
            ),
            !taken ==> final(self)@ == old(self)@,
            final(self)@.wf(),
            final(self)@.sigma.key >= old(self)@.sigma.key,
            final(self)@.mu == old(self)@.mu,
            final(self)@.history == old(self)@.history,
            final(self)@.perfs.len() == old(self)@.perfs.len(),
            final(self)@.weights.len() == final(self)@.perfs.len(),
            forall|k: int|
                1 <= k < final(self)@.perfs.len() ==> (#[trigger] final(self)@.perfs[k]) == old(
                    self,
                )@.perfs[k],
    {
        if diffusion.weights.len() != self.weights.len() || diffusion.sigma.key < self.sigma.key {
            return false;
        }
        self.sigma = diffusion.sigma;
        self.perfs[0] = diffusion.anchor;
        self.weights = diffusion.weights;
        self.mu_pi = self.mu;
        self.delta = diffusion.delta;
        true
    }

    /// Folds a contest in: the performance and its weight join the mixture,
    /// the rating is replaced, the deviation is lowered, and the history gets
    /// an entry whose rating rank is still 0. An outcome that does not lower
    /// the deviation is refused, and the record stays as it is.
    pub fn update(&mut self, contest_id: i64, outcome: Outcome, contest_rank: usize) -> (folded:
        bool)
        requires
            old(self)@.wf(),
        ensures
            folded == old(self)@.admits_outcome(outcome),
            folded ==> {
                &&& final(self)@ == old(self)@.updated(contest_id, outcome, contest_rank)
                &&& final(self)@.sigma == outcome.sigma
                &&& final(self)@.sigma.key < old(self)@.sigma.key
            },
            !folded ==> final(self)@ == old(self)@,
            final(self)@.wf(),
    {
        if !(outcome.sigma.key < self.sigma.key) {
            return false;
        }
        self.perfs.push(outcome.perf);
        self.weights.push(outcome.weight);
        self.mu = outcome.rating;
        self.sigma = outcome.sigma;
        self.history.push(
            PlayerHistoryEntry {
                contest_id,
                perf: outcome.perf,
                rating: outcome.rating,
                contest_rank,
                rating_rank: 0,
            },
        );
        true
    }

    /// Gives the entry of the latest contest its rating rank, if it has none
    /// yet. The sentinel entry is never touched.
    pub fn backfill(&mut self, rank: usize)
        requires
            old(self)@.wf(),
        ensures
            final(self)@ == old(self)@.backfilled(rank),
            final(self)@.wf(),
    {
        let at = self.history.len() - 1;
        let last = self.history[at];
        if at >= 1 && last.rating_rank == 0 {
            self.history[at] = PlayerHistoryEntry {
                contest_id: last.contest_id,
                perf: last.perf,
                rating: last.rating,
                contest_rank: last.contest_rank,
                rating_rank: rank,
            };
        }
    }

    /// The current rating.
    pub fn mu(&self) -> (mu: Scalar)
        ensures
            mu == self@.mu,
    {
        self.mu
    }

    /// The current deviation.
    pub fn sigma(&self) -> (sigma: Scalar)
        ensures
            sigma == self@.sigma,
    {
        self.sigma
    }

    /// The rating with which the player entered the latest contest.
    pub fn mu_pi(&self) -> (mu_pi: Scalar)
        ensures
            mu_pi == self@.mu_pi,
    {
        self.mu_pi
    }

    /// The effective deviation in the latest contest.
    pub fn delta(&self) -> (delta: Scalar)
        ensures
            delta == self@.delta,
    {
        self.delta
    }

    /// The anchor points of the mixture: the prior first, then one
    /// performance for each contest.
    pub fn perfs(&self) -> (perfs: &Vec<Scalar>)
        ensures
            perfs@ == self@.perfs,
    {
        &self.perfs
    }

    /// The weights of the mixture, one for each anchor point.
    pub fn weights(&self) -> (weights: &Vec<Scalar>)
        ensures
            weights@ == self@.weights,
    {
        &self.weights
    }

    /// The history: the sentinel entry, then one entry for each contest.
    pub fn history(&self) -> (history: &Vec<PlayerHistoryEntry>)
        ensures
            history@ == self@.history,
    {
        &self.history
    }
}

} // verus!
