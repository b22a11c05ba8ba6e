//! The rating engine: the players' records, the details of the contests, and
//! the contest in progress.
//!
//! A contest passes through the engine in three steps. `update` takes the
//! scoreboard, ranks it and enrols the newcomers. `diffuse` takes what the
//! diffusion step computed for each line of the standings, and hands back the
//! pairs that the estimation needs. `conclude` takes the performances and
//! ratings, writes the histories, ranks all players by rating and files the
//! contest's detail. The numbers themselves are computed by the caller, between
//! the steps, from what the engine shows of its players.

use crate::contest::{ContestDetailEntry, DetailRow};
use crate::passes::{
    apply_diffusions, apply_outcomes, backfill_ranks, board_of, copy_history, copy_standings,
    is_ranking_of, lists_twice, rating_snapshot, read_ratings, views_of,
};
use crate::player::{
    lemma_backfilled_ranked, lemma_contest_folded, Diffusion, Outcome, Player, PlayerHistoryEntry,
    PlayerView,
};
use crate::scalar::Scalar;
use crate::standings::{
    compute_standings, distinct_ids, entries_of, is_standings_of, lemma_distinct_ids_permutation,
    lemma_lo_le_hi, lemma_standings_of_own_entries, lo_rank, Standing,
};
use crate::table::Table;
use vstd::prelude::*;

verus! {

/// The numbers that an engine is made with: the diffusion exponent, the noise
/// of one contest, the drift between contests, the rating and the deviation of
/// a newcomer, and the weight of a newcomer's prior (the deviation to the
/// power -2).
#[derive(Clone, Copy, Debug, PartialEq, Eq, Structural)]
pub struct Parameters {
    pub rho: Scalar,
    pub beta: Scalar,
    pub gamma: Scalar,
    pub mu_init: Scalar,
    pub sigma_init: Scalar,
    pub prior_weight: Scalar,
}

/// The pattern of 1, the preset diffusion exponent.
pub const PRESET_RHO: u64 = 0x3FF0_0000_0000_0000;

/// The pattern of 200, the preset noise of one contest.
pub const PRESET_BETA: u64 = 0x4069_0000_0000_0000;

/// The pattern of 80, the preset drift between contests.
pub const PRESET_GAMMA: u64 = 0x4054_0000_0000_0000;

/// The pattern of 1500, the preset rating of a newcomer.
pub const PRESET_MU_INIT: u64 = 0x4097_7000_0000_0000;

/// The pattern of 350, the preset deviation of a newcomer.
pub const PRESET_SIGMA_INIT: u64 = 0x4075_E000_0000_0000;

/// The pattern of 1 / 122500, the preset deviation to the power -2.
pub const PRESET_PRIOR_WEIGHT: u64 = 0x3EE1_1E9E_A3FD_8F22;

/// The preset of parameters: rho = 1, beta = 200, gamma = 80, a newcomer's
/// rating 1500 and deviation 350.
pub open spec fn preset() -> Parameters {
    Parameters {
        rho: Scalar { key: PRESET_RHO as i64 },
        beta: Scalar { key: PRESET_BETA as i64 },
        gamma: Scalar { key: PRESET_GAMMA as i64 },
        mu_init: Scalar { key: PRESET_MU_INIT as i64 },
        sigma_init: Scalar { key: PRESET_SIGMA_INIT as i64 },
        prior_weight: Scalar { key: PRESET_PRIOR_WEIGHT as i64 },
    }
}

/// What the engine waits for.
#[derive(Clone, Copy, Debug, PartialEq, Eq, Structural)]
pub enum Phase {
    /// No contest is in progress: the next step is `update`.
    Idle,
    /// A scoreboard has been taken in: the next step is `diffuse`.
    Diffusion,
    /// The diffusion has been taken in: the next step is `conclude`.
    Estimation,
}

/// Why a step was refused. A refused step changes nothing.
#[derive(Clone, Copy, Debug, PartialEq, Eq, Structural)]
pub enum ContestError {
    /// A scoreboard came while an earlier contest is still in progress.
    ContestOpen,
    /// A player stands twice on the scoreboard.
    DuplicatePlayer,
    /// Results came for a step that the engine does not wait for.
    OutOfTurn,
    /// The results do not fit the standings: there is not one for each line,
    /// a diffusion has not as many weights as the player's mixture or lowers
    /// the deviation, or an outcome does not lower the deviation.
    Mismatch,
}

/// Whether the standings have a line for the player.
pub open spec fn listed(standings: Seq<Standing>, id: i64) -> bool {
    exists|i: int| 0 <= i < standings.len() && (#[trigger] standings[i]).player_id == id
}

/// An implementation of the bookkeeping of the Elo-MMR algorithm.
#[derive(Debug)]
pub struct EloMmr {
    parameters: Parameters,
    players: Table<Player>,
    contests: Table<ContestDetailEntry>,
    phase: Phase,
    contest_id: i64,
    standings: Vec<Standing>,
    places: Vec<usize>,
}

impl EloMmr {
    /// The numbers that the engine was made with.
    pub closed spec fn parameters(&self) -> Parameters {
        self.parameters
    }

    /// The ids of the players, in the order of their first contest.
    pub closed spec fn roster(&self) -> Seq<i64> {
        self.players.ids()
    }

    /// The players' records, each at the position of its id in the roster.
    pub closed spec fn records(&self) -> Seq<PlayerView> {
        views_of(self.players.values())
    }

    /// The players' records by id.
    pub open spec fn players(&self) -> Map<i64, PlayerView> {
        Map::new(
            |id: i64| self.roster().contains(id),
            |id: i64| self.records()[self.roster().index_of(id)],
        )
    }

    /// The ids of the contests on file, in the order in which they were first
    /// concluded.
    pub closed spec fn contest_ids(&self) -> Seq<i64> {
        self.contests.ids()
    }

    /// The details on file, each at the position of its contest's id.
    pub closed spec fn details(&self) -> Seq<Seq<DetailRow>> {
        self.contests.values().map_values(|detail: ContestDetailEntry| detail@)
    }

    /// The details on file by contest id.
    pub open spec fn contest_details(&self) -> Map<i64, Seq<DetailRow>> {
        Map::new(
            |id: i64| self.contest_ids().contains(id),
            |id: i64| self.details()[self.contest_ids().index_of(id)],
        )
    }

    /// What the engine waits for.
    pub closed spec fn phase(&self) -> Phase {
        self.phase
    }

    /// The id of the contest in progress.
    pub closed spec fn open_contest_id(&self) -> i64 {
        self.contest_id
    }

    /// The standings of the contest in progress; empty when there is none.
    pub closed spec fn open_standings(&self) -> Seq<Standing> {
        self.standings@
    }

    /// The ratings of all players as a scoreboard, in roster order.
    pub open spec fn rating_board(&self) -> Seq<(i64, i64)> {
        board_of(self.roster(), self.records())
    }

    /// The rank by rating of a player with the given rating: one more than
    /// the number of players with a higher rating.
    pub open spec fn rating_rank(&self, rating: Scalar) -> nat {
        lo_rank(self.rating_board(), rating.key)
    }

    /// The engine's invariant.
    pub closed spec fn wf(&self) -> bool {
        &&& self.players.wf()
        &&& self.contests.wf()
        &&& forall|s: int|
            0 <= s < self.players.values().len() ==> {
                &&& (#[trigger] self.players.values()[s])@.wf()
                &&& self.players.values()[s]@.ranked()
            }
        &&& (self.phase is Idle <==> self.standings@.len() == 0)
        &&& is_standings_of(self.standings@, entries_of(self.standings@))
        &&& distinct_ids(entries_of(self.standings@))
        &&& self.places@.len() == self.standings@.len()
        &&& forall|i: int|
            0 <= i < self.places@.len() ==> {
                &&& (#[trigger] self.places@[i]) < self.players.ids().len()
                &&& self.players.ids()[self.places@[i] as int] == self.standings@[i].player_id
            }
    }

    /// What holds of every engine, whatever has been done with it: no id is
    /// held twice; every record has as many weights as performances, and one
    /// history entry for each of them; every contest in a history has its
    /// rating rank; and the standings of a contest in progress are standings
    /// of players that the engine holds, each once.
    pub proof fn lemma_invariants(&self)
        requires
            self.wf(),
        ensures
            self.roster().no_duplicates(),
            self.records().len() == self.roster().len(),
            forall|s: int|
                0 <= s < self.roster().len() ==> {
                    &&& self.players().contains_key(#[trigger] self.roster()[s])
                    &&& self.players()[self.roster()[s]] == self.records()[s]
                },
            forall|id: i64| #[trigger]
                self.players().contains_key(id) ==> {
                    &&& self.players()[id].wf()
                    &&& self.players()[id].ranked()
                },
            self.contest_ids().no_duplicates(),
            self.details().len() == self.contest_ids().len(),
            forall|c: int|
                0 <= c < self.contest_ids().len() ==> {
                    &&& self.contest_details().contains_key(#[trigger] self.contest_ids()[c])
                    &&& self.contest_details()[self.contest_ids()[c]] == self.details()[c]
                },
            self.phase() is Idle <==> self.open_standings().len() == 0,
            is_standings_of(self.open_standings(), entries_of(self.open_standings())),
            distinct_ids(entries_of(self.open_standings())),
            forall|i: int|
                0 <= i < self.open_standings().len() ==> self.players().contains_key(
                    (#[trigger] self.open_standings()[i]).player_id,
                ),
    {
        self.players.lemma_ids_distinct();
        self.contests.lemma_ids_distinct();
        assert forall|id: i64| #[trigger] self.players().contains_key(id) implies {
            &&& self.players()[id].wf()
            &&& self.players()[id].ranked()
        } by {
            let s = self.roster().index_of(id);
            assert(self.players.values()[s]@.wf());
        }
        assert forall|i: int|
            0 <= i < self.open_standings().len() implies self.players().contains_key(
            (#[trigger] self.open_standings()[i]).player_id,
        ) by {
            assert(self.players.ids()[self.places@[i] as int] == self.standings@[i].player_id);
        }
    }

    /// Construct a new system from its parameters.
    pub fn new(
        rho: Scalar,
        beta: Scalar,
        gamma: Scalar,
        mu_init: Scalar,
        sigma_init: Scalar,
        prior_weight: Scalar,
    ) -> (engine: EloMmr)
        ensures
            engine.wf(),
            engine.parameters() == (Parameters {
                rho,
                beta,
                gamma,
                mu_init,
                sigma_init,
                prior_weight,
            }),
            engine.roster().len() == 0,
            engine.contest_ids().len() == 0,
            engine.phase() is Idle,
    {
        let engine = EloMmr {
            parameters: Parameters { rho, beta, gamma, mu_init, sigma_init, prior_weight },
            players: Table::new(),
            contests: Table::new(),
            phase: Phase::Idle,
            contest_id: 0,
            standings: Vec::new(),
            places: Vec::new(),
        };
        assert(entries_of(engine.standings@).len() == 0);
        engine
    }

    /// What `update` does to the players when it takes in a scoreboard with
    /// the given standings: the players of before stay as they are and keep
    /// their places in the roster, and each player of the standings who was
    /// not held before joins with the record of a newcomer.
    pub open spec fn enrolled(&self, before: &EloMmr, standings: Seq<Standing>) -> bool {
        &&& before.roster().is_prefix_of(self.roster())
        &&& forall|id: i64|
            self.players().contains_key(id) <==> before.players().contains_key(id) || listed(
                standings,
                id,
            )
        &&& forall|id: i64| #[trigger]
            before.players().contains_key(id) ==> self.players()[id] == before.players()[id]
        &&& forall|id: i64| #[trigger]
            self.players().contains_key(id) && !before.players().contains_key(id)
                ==> self.players()[id] == PlayerView::fresh(
                self.parameters().mu_init,
                self.parameters().sigma_init,
                self.parameters().prior_weight,
            )
    }

    /// Takes in the scoreboard of a contest: a list of (player, score), a
    /// higher score being better.
    ///
    /// An empty scoreboard changes nothing and gives empty standings. Any
    /// other is refused with `ContestOpen` while an earlier contest is in
    /// progress, and with `DuplicatePlayer` if a player stands on it twice.
    /// Else the engine ranks the scoreboard, enrols the players it did not
    /// hold, and waits for the diffusion of the standings it returns.
    pub fn update(&mut self, contest_id: i64, scores: Vec<(i64, i64)>) -> (result: Result<
        Vec<Standing>,
        ContestError,
    >)
        requires
            old(self).wf(),
        ensures
            final(self).wf(),
            match result {
                Ok(standings) => {
                    &&& is_standings_of(standings@, scores@)
                    &&& distinct_ids(scores@)
                    &&& scores@.len() == 0 ==> {
                        &&& *final(self) == *old(self)
                        &&& final(self).ratings() == old(self).ratings()
                    }
                    &&& scores@.len() > 0 ==> {
                        &&& old(self).phase() is Idle
                        &&& final(self).phase() is Diffusion
                        &&& final(self).open_contest_id() == contest_id
                        &&& final(self).open_standings() == standings@
                        &&& final(self).parameters() == old(self).parameters()
                        &&& final(self).contest_ids() == old(self).contest_ids()
                        &&& final(self).details() == old(self).details()
                        &&& final(self).enrolled(old(self), standings@)
                    }
                },
                Err(ContestError::ContestOpen) => {
                    &&& scores@.len() > 0
                    &&& old(self).phase() !is Idle
                    &&& *final(self) == *old(self)
                },
                Err(ContestError::DuplicatePlayer) => {
                    &&& scores@.len() > 0
                    &&& old(self).phase() is Idle
                    &&& !distinct_ids(scores@)
                    &&& *final(self) == *old(self)
                },
                Err(_) => false,
            },
    {
        let ghost given = scores@;
        if scores.len() == 0 {
            let standings: Vec<Standing> = Vec::new();
            assert(entries_of(standings@) =~= given);
            return Ok(standings);
        }
        match self.phase {
            Phase::Idle => {},
            _ => {
                return Err(ContestError::ContestOpen);
            },
        }
        let standings = compute_standings(scores);
        if lists_twice(&standings) {
            proof {
                if distinct_ids(given) {
                    lemma_distinct_ids_permutation(given, entries_of(standings@));
                }
            }
            return Err(ContestError::DuplicatePlayer);
        }
        proof {
            lemma_distinct_ids_permutation(entries_of(standings@), given);
            lemma_standings_of_own_entries(standings@, given);
        }
        let places = self.enrol(&standings);
        let ghost enrolled = *self;
        self.phase = Phase::Diffusion;
        self.contest_id = contest_id;
        self.standings = copy_standings(&standings);
        self.places = places;
        assert(self.players() =~= enrolled.players());
        Ok(standings)
    }

    /// Finds the place of each player of the standings in the roster, and
    /// gives those who have none a newcomer's record at the roster's end.
    fn enrol(&mut self, standings: &Vec<Standing>) -> (places: Vec<usize>)
        requires
            old(self).wf(),
            distinct_ids(entries_of(standings@)),
        ensures
            final(self).players.wf(),
            final(self).contests == old(self).contests,
            final(self).parameters == old(self).parameters,
            final(self).phase == old(self).phase,
            final(self).contest_id == old(self).contest_id,
            final(self).standings == old(self).standings,
            final(self).places == old(self).places,
            forall|s: int|
                0 <= s < final(self).players.values().len() ==> {
                    &&& (#[trigger] final(self).players.values()[s])@.wf()
                    &&& final(self).players.values()[s]@.ranked()
                },
            places@.len() == standings@.len(),
            forall|i: int|
                0 <= i < places@.len() ==> {
                    &&& (#[trigger] places@[i]) < final(self).players.ids().len()
                    &&& final(self).players.ids()[places@[i] as int] == standings@[i].player_id
                },
            final(self).enrolled(old(self), standings@),
    {
        let ghost before = *self;
        let n0 = self.players.len();
        let mut places: Vec<usize> = Vec::new();
        let mut i: usize = 0;
        proof {
            self.players.lemma_ids_distinct();
        }
        while i < standings.len()
            invariant
                i <= standings.len(),
                self.players.wf(),
                self.contests == before.contests,
                self.parameters == before.parameters,
                self.phase == before.phase,
                self.contest_id == before.contest_id,
                self.standings == before.standings,
                self.places == before.places,
                n0 == before.players.ids().len(),
                before.players.ids().len() == before.players.values().len(),
                self.players.ids().len() == self.players.values().len(),
                self.players.ids().len() >= n0,
                self.players.ids().take(n0 as int) == before.players.ids(),
                self.players.values().take(n0 as int) == before.players.values(),
                forall|s: int|
                    n0 <= s < self.players.values().len() ==> (#[trigger] self.players.values()[s])@
                        == PlayerView::fresh(
                        self.parameters.mu_init,
                        self.parameters.sigma_init,
                        self.parameters.prior_weight,
                    ),
                forall|s: int|
                    n0 <= s < self.players.ids().len() ==> exists|j: int|
                        0 <= j < i && (#[trigger] standings[j]).player_id
                            == #[trigger] self.players.ids()[s],
                forall|j: int|
                    0 <= j < i ==> self.players.ids().contains((#[trigger] standings[j]).player_id),
                places@.len() == i,
                forall|j: int|
                    0 <= j < i ==> {
                        &&& (#[trigger] places@[j]) < self.players.ids().len()
                        &&& self.players.ids()[places@[j] as int] == standings@[j].player_id
                    },
            decreases standings.len() - i,
        {
            let id = standings[i].player_id;
            let ghost ids_before = self.players.ids();
            let ghost values_before = self.players.values();
            match self.players.position(id) {
                Some(place) => {
                    places.push(place);
                },
                None => {
                    let place = self.players.len();
                    let newcomer = Player::new(
                        self.parameters.mu_init,
                        self.parameters.sigma_init,
                        self.parameters.prior_weight,
                    );
                    self.players.insert(id, newcomer);
                    places.push(place);
                    assert(self.players.ids().take(n0 as int) =~= ids_before.take(n0 as int));
                    assert(self.players.values().take(n0 as int) =~= values_before.take(n0 as int));
                    assert(self.players.ids()[place as int] == id);
                    assert forall|s: int| n0 <= s < self.players.ids().len() implies exists|j: int|
                        0 <= j < i + 1 && (#[trigger] standings[j]).player_id
                            == #[trigger] self.players.ids()[s] by {
                        if s < place {
                            assert(self.players.ids()[s] == ids_before[s]);
                            let j = choose|j: int|
                                0 <= j < i && (#[trigger] standings[j]).player_id == ids_before[s];
                            assert(0 <= j < i + 1 && standings[j].player_id == self.players.ids()[s]);
                        } else {
                            assert(standings[i as int].player_id == self.players.ids()[s]);
                        }
                    }
                    assert forall|j: int| 0 <= j < i implies self.players.ids().contains(
                        (#[trigger] standings[j]).player_id,
                    ) by {
                        let at = ids_before.index_of(standings[j].player_id);
                        assert(self.players.ids()[at] == ids_before[at]);
                    }
                },
            }
            assert(self.players.ids().contains(id));
            i += 1;
        }
        proof {
            self.players.lemma_ids_distinct();
            let after = *self;
            assert(before.roster().is_prefix_of(after.roster())) by {
                assert(after.roster().take(n0 as int) == before.roster());
                assert(before.roster() =~= after.roster().subrange(0, before.roster().len() as int));
            }
            assert forall|s: int| 0 <= s < after.players.values().len() implies {
                &&& (#[trigger] after.players.values()[s])@.wf()
                &&& after.players.values()[s]@.ranked()
            } by {
                if s < n0 {
                    assert(after.players.values()[s] == after.players.values().take(n0 as int)[s]);
                    assert(before.players.values()[s]@.wf());
                }
            }
            assert forall|id: i64| #[trigger]
                before.players().contains_key(id) implies after.players().contains_key(id)
                && after.players()[id] == before.players()[id] by {
                let s = before.roster().index_of(id);
                assert(after.roster()[s] == after.roster().take(n0 as int)[s]);
                assert(after.players.values()[s] == after.players.values().take(n0 as int)[s]);
                assert(after.roster().index_of(after.roster()[s]) == s);
            }
            assert forall|id: i64|
                after.players().contains_key(id) <==> before.players().contains_key(id) || listed(
                    standings@,
                    id,
                ) by {
                if after.players().contains_key(id) && !before.players().contains_key(id) {
                    let s = after.roster().index_of(id);
                    if s < n0 {
                        assert(after.roster()[s] == after.roster().take(n0 as int)[s]);
                        assert(before.roster()[s] == id);
                    }
                    let j = choose|j: int|
                        0 <= j < standings.len() && (#[trigger] standings[j]).player_id
                            == after.players.ids()[s];
                    assert(listed(standings@, id));
                }
                if listed(standings@, id) {
                    let j = choose|j: int|
                        0 <= j < standings@.len() && (#[trigger] standings@[j]).player_id == id;
                    assert(after.players.ids().contains(standings[j].player_id));
                }
            }
            assert forall|id: i64| #[trigger]
                after.players().contains_key(id) && !before.players().contains_key(id)
                    implies after.players()[id] == PlayerView::fresh(
                after.parameters().mu_init,
                after.parameters().sigma_init,
                after.parameters().prior_weight,
            ) by {
                let s = after.roster().index_of(id);
                if s < n0 {
                    assert(after.roster()[s] == after.roster().take(n0 as int)[s]);
                    assert(before.roster()[s] == id);
                }
            }
        }
        places
    }

    /// Whether the diffusions fit the contest in progress: there is one for
    /// each line of the standings, with as many weights as the mixture of that
    /// line's player has components, and with a deviation that is not below
    /// the player's.
    pub open spec fn fits(&self, diffusions: Seq<Diffusion>) -> bool {
        &&& diffusions.len() == self.open_standings().len()
        &&& forall|i: int|
            0 <= i < diffusions.len() ==> self.players()[self.open_standings()[i].player_id].admits_diffusion(
                (#[trigger] diffusions[i]).sigma,
                diffusions[i].weights@,
            )
    }

    /// Whether the outcomes fit the contest in progress: there is one for
    /// each line of the standings, with a deviation that is below the one
    /// that the diffusion gave that line's player.
    pub open spec fn settles(&self, outcomes: Seq<Outcome>) -> bool {
        &&& outcomes.len() == self.open_standings().len()
        &&& forall|i: int|
            0 <= i < outcomes.len() ==> self.players()[self.open_standings()[i].player_id].admits_outcome(
                #[trigger] outcomes[i],
            )
    }

    /// Nothing but the players' records and the phase differs from `before`.
    pub open spec fn same_contest(&self, before: &EloMmr) -> bool {
        &&& self.parameters() == before.parameters()
        &&& self.roster() == before.roster()
        &&& self.contest_ids() == before.contest_ids()
        &&& self.details() == before.details()
        &&& self.open_contest_id() == before.open_contest_id()
        &&& self.open_standings() == before.open_standings()
    }

    /// Takes in the diffusion of the contest in progress, one result for each
    /// line of the standings, in their order.
    ///
    /// The step is refused with `OutOfTurn` unless the engine waits for it,
    /// and with `Mismatch` if the results do not fit. Else each player of the
    /// contest gets the new deviation, which is not below the old one, the new
    /// prior anchor and weights, and the rating of before the contest is noted
    /// with the effective deviation.
    /// The result holds, for each line of the standings, the effective
    /// deviation and that rating.
    pub fn diffuse(&mut self, diffusions: Vec<Diffusion>) -> (result: Result<
        Vec<(Scalar, Scalar)>,
        ContestError,
    >)
        requires
            old(self).wf(),
        ensures
            final(self).wf(),
            match result {
                Ok(player_data) => {
                    &&& old(self).phase() is Diffusion
                    &&& old(self).fits(diffusions@)
                    &&& final(self).phase() is Estimation
                    &&& final(self).same_contest(old(self))
                    &&& forall|i: int|
                        0 <= i < diffusions@.len() ==> {
                            let id = (#[trigger] old(self).open_standings()[i]).player_id;
                            &&& final(self).players()[id].sigma == diffusions@[i].sigma
                            &&& final(self).players()[id].sigma.key >= old(
                                self,
                            ).players()[id].sigma.key
                        }
                    &&& forall|i: int|
                        0 <= i < diffusions@.len() ==> final(self).players()[(
                        #[trigger] old(self).open_standings()[i]).player_id] == old(
                            self,
                        ).players()[old(self).open_standings()[i].player_id].diffused(
                            diffusions@[i].sigma,
                            diffusions@[i].anchor,
                            diffusions@[i].weights@,
                            diffusions@[i].delta,
                        )
                    &&& forall|id: i64| #[trigger]
                        old(self).players().contains_key(id) && !listed(
                            old(self).open_standings(),
                            id,
                        ) ==> final(self).players()[id] == old(self).players()[id]
                    &&& player_data@.len() == diffusions@.len()
                    &&& forall|i: int|
                        0 <= i < diffusions@.len() ==> (#[trigger] player_data@[i]) == (
                            diffusions@[i].delta,
                            old(self).players()[old(self).open_standings()[i].player_id].mu,
                        )
                },
                Err(ContestError::OutOfTurn) => {
                    &&& old(self).phase() !is Diffusion
                    &&& *final(self) == *old(self)
                },
                Err(ContestError::Mismatch) => {
                    &&& old(self).phase() is Diffusion
                    &&& !old(self).fits(diffusions@)
                    &&& *final(self) == *old(self)
                },
                Err(_) => false,
            },
    {
        match self.phase {
            Phase::Diffusion => {},
            _ => {
                return Err(ContestError::OutOfTurn);
            },
        }
        proof {
            self.lemma_places();
        }
        if !self.accepts(&diffusions) {
            return Err(ContestError::Mismatch);
        }
        let n = self.places.len();
        let mut player_data: Vec<(Scalar, Scalar)> = Vec::new();
        let mut i: usize = 0;
        while i < n
            invariant
                self.wf(),
                *self == *old(self),
                n == self.places@.len(),
                n == diffusions@.len(),
                i <= n,
                player_data@.len() == i,
                forall|k: int|
                    0 <= k < self.places@.len() ==> (#[trigger] self.places@[k])
                        < self.players.ids().len(),
                forall|k: int|
                    0 <= k < i ==> (#[trigger] player_data@[k]) == (
                        diffusions@[k].delta,
                        self.players.values()[self.places@[k] as int]@.mu,
                    ),
            decreases n - i,
        {
            let mu = self.players.value_at(self.places[i]).mu();
            player_data.push((diffusions[i].delta, mu));
            i += 1;
        }
        let ghost given = diffusions@;
        proof {
            self.players.lemma_ids_distinct();
            assert forall|i: int| 0 <= i < self.places@.len() implies {
                &&& self.players.values()[(#[trigger] self.places@[i]) as int]@.wf()
                &&& self.players.values()[self.places@[i] as int]@.admits_diffusion(
                    given[i].sigma,
                    given[i].weights@,
                )
            } by {
                let s = self.places@[i] as int;
                assert(self.roster()[s] == self.open_standings()[i].player_id);
                assert(self.players()[self.open_standings()[i].player_id] == self.records()[s]);
                let id = self.open_standings()[i].player_id;
                assert(self.players()[id].admits_diffusion(given[i].sigma, given[i].weights@));
            }
        }
        apply_diffusions(&mut self.players, &self.places, diffusions);
        self.phase = Phase::Estimation;
        proof {
            let before = *old(self);
            let after = *self;
            before.players.lemma_ids_distinct();
            after.players.lemma_ids_distinct();
            assert forall|s: int| 0 <= s < after.players.values().len() implies {
                &&& (#[trigger] after.players.values()[s])@.wf()
                &&& after.players.values()[s]@.ranked()
            } by {
                assert(before.players.values()[s]@.wf());
                if exists|k: int| 0 <= k < after.places@.len() && #[trigger] after.places@[k] == s {
                    let k = choose|k: int|
                        0 <= k < after.places@.len() && #[trigger] after.places@[k] == s;
                    assert(after.players.values()[after.places@[k] as int]@.history
                        == before.players.values()[s]@.history);
                } else {
                    assert(forall|k: int|
                        0 <= k < after.places@.len() ==> (#[trigger] after.places@[k]) != s);
                }
            }
            assert forall|i: int| 0 <= i < given.len() implies after.players()[(
            #[trigger] before.open_standings()[i]).player_id]
                == before.players()[before.open_standings()[i].player_id].diffused(
                given[i].sigma,
                given[i].anchor,
                given[i].weights@,
                given[i].delta,
            ) by {
                let s = after.places@[i] as int;
                assert(before.roster()[s] == before.open_standings()[i].player_id);
            }
            assert forall|id: i64| #[trigger]
                before.players().contains_key(id) && !listed(
                    before.open_standings(),
                    id,
                ) implies after.players()[id] == before.players()[id] by {
                let s = before.roster().index_of(id);
                assert forall|k: int| 0 <= k < after.places@.len() implies (
                #[trigger] after.places@[k]) != s by {
                    if after.places@[k] == s {
                        assert(before.open_standings()[k].player_id == id);
                    }
                }
            }
            assert forall|i: int| 0 <= i < given.len() implies (#[trigger] player_data@[i]) == (
                given[i].delta,
                before.players()[before.open_standings()[i].player_id].mu,
            ) by {
                let s = after.places@[i] as int;
                assert(before.roster()[s] == before.open_standings()[i].player_id);
            }
        }
        Ok(player_data)
    }

    /// In a well-formed engine the places of the contest in progress are
    /// places of the roster, no two the same.
    proof fn lemma_places(&self)
        requires
            self.wf(),
        ensures
            forall|i: int|
                0 <= i < self.places@.len() ==> (#[trigger] self.places@[i]) < self.players.ids().len(),
            forall|i: int, j: int|
                0 <= i < j < self.places@.len() ==> (#[trigger] self.places@[i]) != (
                #[trigger] self.places@[j]),
    {
        assert forall|i: int, j: int| 0 <= i < j < self.places@.len() implies (
        #[trigger] self.places@[i]) != (#[trigger] self.places@[j]) by {
            assert(entries_of(self.standings@)[i].0 != entries_of(self.standings@)[j].0);
        }
    }

    /// Whether the diffusions fit the contest in progress.
    fn accepts(&self, diffusions: &Vec<Diffusion>) -> (fit: bool)
        requires
            self.wf(),
        ensures
            fit == self.fits(diffusions@),
    {
        if diffusions.len() != self.places.len() {
            return false;
        }
        proof {
            self.players.lemma_ids_distinct();
        }
        let mut i: usize = 0;
        while i < diffusions.len()
            invariant
                self.wf(),
                i <= diffusions@.len(),
                diffusions@.len() == self.places@.len(),
                self.players.ids().len() == self.players.values().len(),
                forall|k: int|
                    0 <= k < self.players.ids().len() ==> self.players.ids().index_of(
                        #[trigger] self.players.ids()[k],
                    ) == k,
                forall|k: int|
                    0 <= k < i ==> self.players()[self.open_standings()[k].player_id].admits_diffusion(
                        (#[trigger] diffusions@[k]).sigma,
                        diffusions@[k].weights@,
                    ),
            decreases diffusions@.len() - i,
        {
            let place = self.places[i];
            assert(self.players.ids()[self.places@[i as int] as int]
                == self.standings@[i as int].player_id);
            let player = self.players.value_at(place);
            if diffusions[i].weights.len() != player.weights().len() || diffusions[i].sigma.lt(
                player.sigma(),
            ) {
                return false;
            }
            i += 1;
        }
        true
    }

    /// Whether the outcomes fit the contest in progress.
    fn admits(&self, outcomes: &Vec<Outcome>) -> (fit: bool)
        requires
            self.wf(),
        ensures
            fit == self.settles(outcomes@),
    {
        if outcomes.len() != self.places.len() {
            return false;
        }
        proof {
            self.players.lemma_ids_distinct();
        }
        let mut i: usize = 0;
        while i < outcomes.len()
            invariant
                self.wf(),
                i <= outcomes@.len(),
                outcomes@.len() == self.places@.len(),
                self.players.ids().len() == self.players.values().len(),
                forall|k: int|
                    0 <= k < self.players.ids().len() ==> self.players.ids().index_of(
                        #[trigger] self.players.ids()[k],
                    ) == k,
                forall|k: int|
                    0 <= k < i ==> self.players()[self.open_standings()[k].player_id].admits_outcome(
                        #[trigger] outcomes@[k],
                    ),
            decreases outcomes@.len() - i,
        {
            let place = self.places[i];
            assert(self.players.ids()[self.places@[i as int] as int]
                == self.standings@[i as int].player_id);
            let player = self.players.value_at(place);
            if !outcomes[i].sigma.lt(player.sigma()) {
                return false;
            }
            i += 1;
        }
        true
    }

    /// The lines of a contest's detail: for each line of the standings the
    /// player, the score, the performance, the new rating and the rank that
    /// this rating has among the ratings of all players.
    pub open spec fn detail_rows(&self, standings: Seq<Standing>, outcomes: Seq<Outcome>) -> Seq<
        DetailRow,
    > {
        Seq::new(
            standings.len(),
            |i: int|
                (
                    standings[i].player_id,
                    standings[i].score,
                    outcomes[i].perf,
                    outcomes[i].rating,
                    self.rating_rank(outcomes[i].rating) as usize,
                ),
        )
    }

    /// Takes in the outcomes of the contest in progress, one for each line of
    /// the standings, in their order, and concludes the contest.
    ///
    /// The step is refused with `OutOfTurn` unless the engine waits for it,
    /// and with `Mismatch` if there is not one outcome for each line, or if
    /// one does not lower the deviation that the diffusion gave its player.
    /// Else each player of the contest gets the performance and its weight
    /// into the mixture, the new rating, the lowered deviation, and a history
    /// entry with the contest, the best position of the player's score and
    /// the rank of the new rating among all players; the contest's detail is
    /// filed under its id, in place of an earlier one under that id; and the
    /// engine is idle again. The result lists all players with their ratings,
    /// the highest first.
    pub fn conclude(&mut self, outcomes: Vec<Outcome>) -> (result: Result<
        Vec<(i64, Scalar)>,
        ContestError,
    >)
        requires
            old(self).wf(),
        ensures
            final(self).wf(),
            match result {
                Ok(ratings) => {
                    &&& old(self).phase() is Estimation
                    &&& old(self).settles(outcomes@)
                    &&& outcomes@.len() == old(self).open_standings().len()
                    &&& final(self).phase() is Idle
                    &&& final(self).parameters() == old(self).parameters()
                    &&& final(self).roster() == old(self).roster()
                    &&& forall|i: int|
                        0 <= i < outcomes@.len() ==> {
                            let id = (#[trigger] old(self).open_standings()[i]).player_id;
                            &&& final(self).players()[id].sigma == outcomes@[i].sigma
                            &&& final(self).players()[id].sigma.key < old(
                                self,
                            ).players()[id].sigma.key
                        }
                    &&& forall|i: int|
                        0 <= i < outcomes@.len() ==> final(self).players()[(
                        #[trigger] old(self).open_standings()[i]).player_id] == old(
                            self,
                        ).players()[old(self).open_standings()[i].player_id].updated(
                            old(self).open_contest_id(),
                            outcomes@[i],
                            old(self).open_standings()[i].lo,
                        ).backfilled(final(self).rating_rank(outcomes@[i].rating) as usize)
                    &&& forall|i: int|
                        0 <= i < outcomes@.len() ==> final(self).players()[(
                        #[trigger] old(self).open_standings()[i]).player_id].history.last().rating_rank
                            >= 1
                    &&& forall|id: i64| #[trigger]
                        old(self).players().contains_key(id) && !listed(
                            old(self).open_standings(),
                            id,
                        ) ==> final(self).players()[id] == old(self).players()[id]
                    &&& final(self).contest_details() == old(self).contest_details().insert(
                        old(self).open_contest_id(),
                        final(self).detail_rows(old(self).open_standings(), outcomes@),
                    )
                    &&& final(self).contest_ids() == (if old(self).contest_ids().contains(
                        old(self).open_contest_id(),
                    ) {
                        old(self).contest_ids()
                    } else {
                        old(self).contest_ids().push(old(self).open_contest_id())
                    })
                    &&& is_ranking_of(ratings@, final(self).rating_board())
                },
                Err(ContestError::OutOfTurn) => {
                    &&& old(self).phase() !is Estimation
                    &&& *final(self) == *old(self)
                },
                Err(ContestError::Mismatch) => {
                    &&& old(self).phase() is Estimation
                    &&& !old(self).settles(outcomes@)
                    &&& *final(self) == *old(self)
                },
                Err(_) => false,
            },
    {
        match self.phase {
            Phase::Estimation => {},
            _ => {
                return Err(ContestError::OutOfTurn);
            },
        }
        if !self.admits(&outcomes) {
            return Err(ContestError::Mismatch);
        }
        let ranking = self.settle(&outcomes);
        assert(self.open_standings() == old(self).open_standings());
        let rows = self.collect_rows(&outcomes);
        let ghost settled = *self;
        self.contests.insert(self.contest_id, ContestDetailEntry::new(rows));
        self.phase = Phase::Idle;
        self.standings = Vec::new();
        self.places = Vec::new();
        let ratings = read_ratings(&ranking);
        proof {
            let before = *old(self);
            let after = *self;
            before.contests.lemma_ids_distinct();
            after.contests.lemma_ids_distinct();
            assert(entries_of(after.standings@) =~= Seq::<(i64, i64)>::empty());
            assert(after.players() =~= settled.players());
            let rows = after.detail_rows(before.open_standings(), outcomes@);
            let cid = before.open_contest_id();
            assert(after.contest_details() =~= before.contest_details().insert(cid, rows)) by {
                assert forall|id: i64| after.contest_details().contains_key(id) implies #[trigger]
                after.contest_details()[id] == before.contest_details().insert(cid, rows)[id] by {
                    let c = after.contest_ids().index_of(id);
                    if id != cid {
                        assert(before.contest_ids().contains(id));
                        let b = before.contest_ids().index_of(id);
                        assert(after.contest_ids()[b] == id);
                    } else {
                        if before.contest_ids().contains(cid) {
                            let b = before.contest_ids().index_of(cid);
                            assert(after.contest_ids()[b] == cid);
                        } else {
                            assert(after.contest_ids()[before.contest_ids().len() as int] == cid);
                        }
                    }
                }
                assert forall|id: i64|
                    before.contest_details().insert(cid, rows).contains_key(id)
                        implies #[trigger] after.contest_details().contains_key(id) by {
                    if id != cid {
                        let b = before.contest_ids().index_of(id);
                        assert(after.contest_ids()[b] == id);
                    } else {
                        if before.contest_ids().contains(cid) {
                            let b = before.contest_ids().index_of(cid);
                            assert(after.contest_ids()[b] == cid);
                        } else {
                            assert(after.contest_ids()[before.contest_ids().len() as int] == cid);
                        }
                    }
                }
            }
        }
        Ok(ratings)
    }

    /// Folds the outcomes into the records of the contest in progress, ranks
    /// all players by rating and gives the new history entries their ranks.
    /// Returns the ranking.
    fn settle(&mut self, outcomes: &Vec<Outcome>) -> (ranking: Vec<Standing>)
        requires
            old(self).wf(),
            old(self).settles(outcomes@),
        ensures
            final(self).wf(),
            final(self).contests == old(self).contests,
            final(self).parameters == old(self).parameters,
            final(self).phase == old(self).phase,
            final(self).contest_id == old(self).contest_id,
            final(self).standings == old(self).standings,
            final(self).places == old(self).places,
            final(self).roster() == old(self).roster(),
            is_standings_of(ranking@, final(self).rating_board()),
            forall|i: int|
                0 <= i < outcomes@.len() ==> {
                    let id = (#[trigger] old(self).open_standings()[i]).player_id;
                    let rank = final(self).rating_rank(outcomes@[i].rating) as usize;
                    &&& final(self).players()[id] == old(self).players()[id].updated(
                        old(self).open_contest_id(),
                        outcomes@[i],
                        old(self).open_standings()[i].lo,
                    ).backfilled(rank)
                    &&& final(self).players()[id].history.last().rating_rank == rank
                    &&& final(self).players()[id].history.last().perf == outcomes@[i].perf
                    &&& final(self).players()[id].mu == outcomes@[i].rating
                    &&& final(self).players()[id].sigma == outcomes@[i].sigma
                    &&& rank >= 1
                },
            forall|id: i64| #[trigger]
                old(self).players().contains_key(id) && !listed(old(self).open_standings(), id)
                    ==> final(self).players()[id] == old(self).players()[id],
    {
        proof {
            self.lemma_places();
            self.players.lemma_ids_distinct();
            assert forall|i: int| 0 <= i < self.places@.len() implies {
                &&& self.players.values()[(#[trigger] self.places@[i]) as int]@.wf()
                &&& self.players.values()[self.places@[i] as int]@.admits_outcome(outcomes@[i])
            } by {
                let s = self.places@[i] as int;
                let id = self.open_standings()[i].player_id;
                assert(self.roster()[s] == id);
                assert(self.players()[id] == self.records()[s]);
                assert(self.players()[id].admits_outcome(outcomes@[i]));
            }
        }
        apply_outcomes(
            &mut self.players,
            &self.places,
            &self.standings,
            self.contest_id,
            outcomes,
        );
        let ghost folded = *self;
        let board = rating_snapshot(&self.players);
        let ghost ratings = board@;
        let ranking = compute_standings(board);
        proof {
            assert forall|s: int| 0 <= s < self.players.values().len() implies (
            #[trigger] self.players.values()[s])@.wf() by {
                assert(old(self).players.values()[s]@.wf());
                if exists|k: int| 0 <= k < self.places@.len() && #[trigger] self.places@[k] == s {
                    let k = choose|k: int|
                        0 <= k < self.places@.len() && #[trigger] self.places@[k] == s;
                    assert(self.players.values()[self.places@[k] as int]@ == old(
                        self,
                    ).players.values()[s]@.updated(
                        self.contest_id,
                        outcomes@[k],
                        self.standings@[k].lo,
                    ));
                } else {
                    assert(forall|k: int|
                        0 <= k < self.places@.len() ==> (#[trigger] self.places@[k]) != s);
                }
            }
        }
        backfill_ranks(&mut self.players, &ranking);
        proof {
            let before = *old(self);
            let after = *self;
            before.players.lemma_ids_distinct();
            after.players.lemma_ids_distinct();
            assert(folded.rating_board() == ratings);
            assert(ratings.len() == ranking@.len());
            assert(ranking@.len() == ranking.len());
            assert(ratings.len() <= usize::MAX);
            assert(after.places@ == before.places@);
            assert(folded.places@ == before.places@);
            assert(after.rating_board() =~= ratings) by {
                assert forall|s: int| 0 <= s < ratings.len() implies after.rating_board()[s]
                    == ratings[s] by {
                    assert(after.players.values()[s]@.mu == folded.players.values()[s]@.mu);
                }
            }
            // every record, by its place
            assert forall|s: int| 0 <= s < after.players.values().len() implies {
                &&& (#[trigger] after.players.values()[s])@.wf()
                &&& after.players.values()[s]@.ranked()
                &&& (forall|k: int| 0 <= k < after.places@.len() ==> (#[trigger] after.places@[k]) != s)
                    ==> after.players.values()[s]@ == before.players.values()[s]@
            } by {
                let rank = lo_rank(ratings, folded.players.values()[s]@.mu.key) as usize;
                assert(ratings[s].1 == folded.players.values()[s]@.mu.key);
                lemma_lo_le_hi(ratings, s);
                assert(before.players.values()[s]@.wf());
                if exists|k: int| 0 <= k < after.places@.len() && #[trigger] after.places@[k] == s {
                    let k = choose|k: int|
                        0 <= k < after.places@.len() && #[trigger] after.places@[k] == s;
                    assert(folded.players.values()[after.places@[k] as int]@
                        == before.players.values()[s]@.updated(
                        before.contest_id,
                        outcomes@[k],
                        before.standings@[k].lo,
                    ));
                    lemma_contest_folded(
                        before.players.values()[s]@,
                        before.contest_id,
                        outcomes@[k],
                        before.standings@[k].lo,
                        rank,
                    );
                } else {
                    assert(forall|k: int|
                        0 <= k < after.places@.len() ==> (#[trigger] after.places@[k]) != s);
                    assert(folded.players.values()[s] == before.players.values()[s]);
                    lemma_backfilled_ranked(before.players.values()[s]@, rank);
                }
            }
            assert forall|i: int| 0 <= i < outcomes@.len() implies {
                let id = (#[trigger] before.open_standings()[i]).player_id;
                let rank = after.rating_rank(outcomes@[i].rating) as usize;
                &&& after.players()[id] == before.players()[id].updated(
                    before.open_contest_id(),
                    outcomes@[i],
                    before.open_standings()[i].lo,
                ).backfilled(rank)
                &&& after.players()[id].history.last().rating_rank == rank
                &&& after.players()[id].history.last().perf == outcomes@[i].perf
                &&& after.players()[id].mu == outcomes@[i].rating
                &&& after.players()[id].sigma == outcomes@[i].sigma
                &&& rank >= 1
            } by {
                let s = after.places@[i] as int;
                let rank = after.rating_rank(outcomes@[i].rating) as usize;
                assert(before.roster()[s] == before.open_standings()[i].player_id);
                assert(folded.players.values()[after.places@[i] as int]@
                    == before.players.values()[s]@.updated(
                    before.contest_id,
                    outcomes@[i],
                    before.standings@[i].lo,
                ));
                assert(ratings[s].1 == outcomes@[i].rating.key);
                lemma_lo_le_hi(ratings, s);
                lemma_contest_folded(
                    before.players.values()[s]@,
                    before.contest_id,
                    outcomes@[i],
                    before.standings@[i].lo,
                    rank,
                );
            }
            assert forall|id: i64| #[trigger]
                before.players().contains_key(id) && !listed(
                    before.open_standings(),
                    id,
                ) implies after.players()[id] == before.players()[id] by {
                let s = before.roster().index_of(id);
                assert forall|k: int| 0 <= k < after.places@.len() implies (
                #[trigger] after.places@[k]) != s by {
                    if after.places@[k] == s {
                        assert(before.open_standings()[k].player_id == id);
                    }
                }
                assert(after.players.values()[s]@ == before.players.values()[s]@);
            }
        }
        ranking
    }

    /// Reads the lines of the detail of the contest in progress off the
    /// records of its players.
    fn collect_rows(&self, outcomes: &Vec<Outcome>) -> (rows: Vec<DetailRow>)
        requires
            self.wf(),
            outcomes@.len() == self.places@.len(),
            forall|i: int|
                0 <= i < outcomes@.len() ==> {
                    let id = (#[trigger] self.open_standings()[i]).player_id;
                    let rank = self.rating_rank(outcomes@[i].rating) as usize;
                    &&& self.players()[id].history.last().rating_rank == rank
                    &&& self.players()[id].history.last().perf == outcomes@[i].perf
                    &&& self.players()[id].mu == outcomes@[i].rating
                },
        ensures
            rows@ == self.detail_rows(self.open_standings(), outcomes@),
    {
        let n = self.places.len();
        let mut rows: Vec<DetailRow> = Vec::new();
        let mut i: usize = 0;
        proof {
            self.players.lemma_ids_distinct();
        }
        while i < n
            invariant
                self.wf(),
                n == self.places@.len(),
                n == outcomes@.len(),
                i <= n,
                rows@.len() == i,
                self.players.ids().len() == self.players.values().len(),
                forall|k: int|
                    0 <= k < self.players.ids().len() ==> self.players.ids().index_of(
                        #[trigger] self.players.ids()[k],
                    ) == k,
                forall|k: int|
                    0 <= k < outcomes@.len() ==> {
                        let id = (#[trigger] self.open_standings()[k]).player_id;
                        let rank = self.rating_rank(outcomes@[k].rating) as usize;
                        &&& self.players()[id].history.last().rating_rank == rank
                        &&& self.players()[id].history.last().perf == outcomes@[k].perf
                        &&& self.players()[id].mu == outcomes@[k].rating
                    },
                forall|k: int|
                    0 <= k < i ==> (#[trigger] rows@[k]) == self.detail_rows(
                        self.open_standings(),
                        outcomes@,
                    )[k],
            decreases n - i,
        {
            let place = self.places[i];
            let line = self.standings[i];
            assert(self.players.ids()[self.places@[i as int] as int]
                == self.standings@[i as int].player_id);
            assert(self.open_standings()[i as int].player_id == line.player_id);
            let player = self.players.value_at(place);
            assert(player@ == self.players()[line.player_id]);
            assert(player@.wf());
            let history = player.history();
            let last = history[history.len() - 1];
            rows.push((line.player_id, line.score, last.perf, player.mu(), last.rating_rank));
            i += 1;
        }
        assert(rows@ =~= self.detail_rows(self.open_standings(), outcomes@));
        rows
    }

    /// The parameters.
    pub fn get_parameters(&self) -> (parameters: Parameters)
        ensures
            parameters == self.parameters(),
    {
        self.parameters
    }

    /// What the engine waits for.
    pub fn get_phase(&self) -> (phase: Phase)
        ensures
            phase == self.phase(),
    {
        self.phase
    }

    /// The standings of the contest in progress; empty when there is none.
    pub fn get_standings(&self) -> (standings: &Vec<Standing>)
        ensures
            standings@ == self.open_standings(),
    {
        &self.standings
    }

    /// The record of a player, if the engine holds one.
    pub fn get_player(&self, id: i64) -> (found: Option<&Player>)
        requires
            self.wf(),
        ensures
            found.is_some() == self.players().contains_key(id),
            found matches Some(player) ==> player@ == self.players()[id],
    {
        proof {
            self.lemma_lookup(id);
        }
        self.players.get(id)
    }

    /// A player's record in the table is the record under the player's id.
    proof fn lemma_lookup(&self, id: i64)
        requires
            self.wf(),
        ensures
            self.players().contains_key(id) == self.players.ids().contains(id),
            self.players().contains_key(id) ==> self.players()[id] == self.players.entries()[id]@,
            self.contest_details().contains_key(id) == self.contests.ids().contains(id),
            self.contest_details().contains_key(id) ==> self.contest_details()[id]
                == self.contests.entries()[id]@,
    {
        self.players.lemma_ids_distinct();
        self.contests.lemma_ids_distinct();
        if self.players.ids().contains(id) {
            let s = self.players.ids().index_of(id);
            assert(0 <= s < self.players.values().len());
        }
        if self.contests.ids().contains(id) {
            let c = self.contests.ids().index_of(id);
            assert(0 <= c < self.contests.values().len());
        }
    }

    /// All players with their ratings, in roster order.
    pub open spec fn ratings(&self) -> Seq<(i64, Scalar)> {
        Seq::new(self.roster().len(), |s: int| (self.roster()[s], self.records()[s].mu))
    }

    /// Get all players' rating.
    ///
    /// The returned tuple follows the order (player_id, rating).
    pub fn get_ratings(&self) -> (ratings: Vec<(i64, Scalar)>)
        requires
            self.wf(),
        ensures
            ratings@ == self.ratings(),
    {
        let n = self.players.len();
        let mut ratings: Vec<(i64, Scalar)> = Vec::new();
        let mut s: usize = 0;
        proof {
            self.players.lemma_ids_distinct();
        }
        while s < n
            invariant
                self.wf(),
                n == self.players.ids().len(),
                n == self.players.values().len(),
                s <= n,
                ratings@.len() == s,
                forall|k: int| 0 <= k < s ==> (#[trigger] ratings@[k]) == self.ratings()[k],
            decreases n - s,
        {
            ratings.push((self.players.id_at(s), self.players.value_at(s).mu()));
            s += 1;
        }
        assert(ratings@ =~= self.ratings());
        ratings
    }

    /// Get the rating of the specified player.
    pub fn get_rating_of(&self, id: &i64) -> (rating: Option<Scalar>)
        requires
            self.wf(),
        ensures
            rating == (if self.players().contains_key(*id) {
                Some(self.players()[*id].mu)
            } else {
                None
            }),
    {
        proof {
            self.lemma_lookup(*id);
        }
        match self.players.get(*id) {
            Some(player) => Some(player.mu()),
            None => None,
        }
    }

    /// A copy of every player's history, in roster order.
    pub fn export_player_history(&self) -> (histories: Vec<(i64, Vec<PlayerHistoryEntry>)>)
        requires
            self.wf(),
        ensures
            histories@.len() == self.roster().len(),
            forall|s: int|
                0 <= s < histories@.len() ==> {
                    &&& (#[trigger] histories@[s]).0 == self.roster()[s]
                    &&& histories@[s].1@ == self.records()[s].history
                },
    {
        let n = self.players.len();
        let mut histories: Vec<(i64, Vec<PlayerHistoryEntry>)> = Vec::new();
        let mut s: usize = 0;
        proof {
            self.players.lemma_ids_distinct();
        }
        while s < n
            invariant
                self.wf(),
                n == self.players.ids().len(),
                n == self.players.values().len(),
                s <= n,
                histories@.len() == s,
                forall|k: int|
                    0 <= k < s ==> {
                        &&& (#[trigger] histories@[k]).0 == self.roster()[k]
                        &&& histories@[k].1@ == self.records()[k].history
                    },
            decreases n - s,
        {
            let history = copy_history(self.players.value_at(s).history());
            histories.push((self.players.id_at(s), history));
            s += 1;
        }
        histories
    }

    /// A copy of the history of the specified player.
    pub fn export_player_history_of(&self, id: i64) -> (history: Option<Vec<PlayerHistoryEntry>>)
        requires
            self.wf(),
        ensures
            history.is_some() == self.players().contains_key(id),
            history matches Some(entries) ==> entries@ == self.players()[id].history,
    {
        proof {
            self.lemma_lookup(id);
        }
        match self.players.get(id) {
            Some(player) => Some(copy_history(player.history())),
            None => None,
        }
    }

    /// A copy of the detail of every contest on file, in the order in which
    /// the contests were first concluded.
    pub fn export_contest_details(&self) -> (details: Vec<(i64, ContestDetailEntry)>)
        requires
            self.wf(),
        ensures
            details@.len() == self.contest_ids().len(),
            forall|c: int|
                0 <= c < details@.len() ==> {
                    &&& (#[trigger] details@[c]).0 == self.contest_ids()[c]
                    &&& details@[c].1@ == self.details()[c]
                },
    {
        let n = self.contests.len();
        let mut details: Vec<(i64, ContestDetailEntry)> = Vec::new();
        let mut c: usize = 0;
        proof {
            self.contests.lemma_ids_distinct();
        }
        while c < n
            invariant
                self.wf(),
                n == self.contests.ids().len(),
                n == self.contests.values().len(),
                c <= n,
                details@.len() == c,
                forall|k: int|
                    0 <= k < c ==> {
                        &&& (#[trigger] details@[k]).0 == self.contest_ids()[k]
                        &&& details@[k].1@ == self.details()[k]
                    },
            decreases n - c,
        {
            let detail = self.contests.value_at(c).duplicate();
            details.push((self.contests.id_at(c), detail));
            c += 1;
        }
        details
    }

    /// A copy of the detail of the specified contest.
    pub fn export_contest_detail_of(&self, id: i64) -> (detail: Option<ContestDetailEntry>)
        requires
            self.wf(),
        ensures
            detail.is_some() == self.contest_details().contains_key(id),
            detail matches Some(entry) ==> entry@ == self.contest_details()[id],
    {
        proof {
            self.lemma_lookup(id);
        }
        match self.contests.get(id) {
            Some(entry) => Some(entry.duplicate()),
            None => None,
        }
    }
}

impl Default for EloMmr {
    /// The system with the preset of parameters.
    fn default() -> (engine: EloMmr)
        ensures
            engine.wf(),
            engine.parameters() == preset(),
            engine.roster().len() == 0,
            engine.contest_ids().len() == 0,
            engine.phase() is Idle,
    {
        EloMmr::new(
            Scalar::from_bits(PRESET_RHO),
            Scalar::from_bits(PRESET_BETA),
            Scalar::from_bits(PRESET_GAMMA),
            Scalar::from_bits(PRESET_MU_INIT),
            Scalar::from_bits(PRESET_SIGMA_INIT),
            Scalar::from_bits(PRESET_PRIOR_WEIGHT),
        )
    }
}

} // verus!
