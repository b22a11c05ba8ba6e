//! The passes that the engine makes over the table of records, and the lists
//! that it reads off it.

use crate::index::{index_insert, index_new, slots};
use crate::player::{
    lemma_backfilled_twice, Diffusion, Outcome, Player, PlayerHistoryEntry, PlayerView,
};
use crate::scalar::Scalar;
use crate::sorting::descending;
use crate::standings::{distinct_ids, entries_of, is_standings_of, lo_rank, Standing};
use crate::table::Table;
use vstd::prelude::*;
use vstd::seq_lib::to_multiset_contains;

verus! {

/// Whether some player stands twice in the standings.
pub(crate) fn lists_twice(standings: &Vec<Standing>) -> (twice: bool)
    ensures
        twice == !distinct_ids(entries_of(standings@)),
{
    let mut seen = index_new();
    let mut i: usize = 0;
    while i < standings.len()
        invariant
            i <= standings.len(),
            forall|id: i64| #[trigger]
                slots(seen).contains_key(id) <==> exists|j: int|
                    0 <= j < i && (#[trigger] standings[j]).player_id == id,
            forall|a: int, b: int|
                0 <= a < b < i ==> (#[trigger] standings[a]).player_id != (
                #[trigger] standings[b]).player_id,
        decreases standings.len() - i,
    {
        let id = standings[i].player_id;
        let previous = index_insert(&mut seen, id, i);
        if previous.is_some() {
            proof {
                let j = choose|j: int| 0 <= j < i && (#[trigger] standings[j]).player_id == id;
                assert(entries_of(standings@)[j].0 == entries_of(standings@)[i as int].0);
            }
            return true;
        }
        assert forall|other: i64| #[trigger] slots(seen).contains_key(other) <==> exists|j: int|
            0 <= j < i + 1 && (#[trigger] standings[j]).player_id == other by {
            if other == id {
                assert(standings[i as int].player_id == id);
            } else if slots(seen).contains_key(other) {
                let j = choose|j: int| 0 <= j < i && (#[trigger] standings[j]).player_id == other;
                assert(0 <= j < i + 1 && standings[j].player_id == other);
            }
        }
        i += 1;
    }
    assert forall|a: int, b: int| 0 <= a < b < standings.len() implies (#[trigger] entries_of(
        standings@,
    )[a]).0 != (#[trigger] entries_of(standings@)[b]).0 by {
        assert(standings[a].player_id != standings[b].player_id);
    }
    false
}

/// A copy of the standings.
pub(crate) fn copy_standings(standings: &Vec<Standing>) -> (copy: Vec<Standing>)
    ensures
        copy@ == standings@,
{
    let mut copy: Vec<Standing> = Vec::new();
    let mut i: usize = 0;
    while i < standings.len()
        invariant
            i <= standings.len(),
            copy@ == standings@.take(i as int),
        decreases standings.len() - i,
    {
        copy.push(standings[i]);
        assert(standings@.take(i + 1) =~= standings@.take(i as int).push(standings@[i as int]));
        i += 1;
    }
    assert(standings@.take(standings.len() as int) =~= standings@);
    copy
}

/// Hands each diffusion to the record at its place.
pub(crate) fn apply_diffusions(
    players: &mut Table<Player>,
    places: &Vec<usize>,
    diffusions: Vec<Diffusion>,
)
    requires
        old(players).wf(),
        places@.len() == diffusions@.len(),
        forall|i: int| 0 <= i < places@.len() ==> (#[trigger] places@[i]) < old(players).ids().len(),
        forall|i: int, j: int|
            0 <= i < j < places@.len() ==> (#[trigger] places@[i]) != (#[trigger] places@[j]),
        forall|i: int|
            0 <= i < places@.len() ==> {
                &&& old(players).values()[(#[trigger] places@[i]) as int]@.wf()
                &&& old(players).values()[places@[i] as int]@.admits_diffusion(
                    diffusions@[i].sigma,
                    diffusions@[i].weights@,
                )
            },
    ensures
        final(players).wf(),
        final(players).ids() == old(players).ids(),
        final(players).values().len() == old(players).values().len(),
        forall|i: int|
            0 <= i < places@.len() ==> final(players).values()[(#[trigger] places@[i]) as int]@
                == old(players).values()[places@[i] as int]@.diffused(
                diffusions@[i].sigma,
                diffusions@[i].anchor,
                diffusions@[i].weights@,
                diffusions@[i].delta,
            ),
        forall|s: int|
            0 <= s < old(players).values().len() && (forall|i: int|
                0 <= i < places@.len() ==> (#[trigger] places@[i]) != s) ==> (
            #[trigger] final(players).values()[s]) == old(players).values()[s],
{
    let ghost all = diffusions@;
    let ghost before = *players;
    let mut diffusions = diffusions;
    let mut i: usize = places.len();
    proof {
        players.lemma_ids_distinct();
    }
    while i > 0
        invariant
            i <= places@.len(),
            places@.len() == all.len(),
            diffusions@ == all.take(i as int),
            players.wf(),
            before.wf(),
            players.ids() == before.ids(),
            players.values().len() == before.values().len(),
            before.values().len() == before.ids().len(),
            forall|k: int| 0 <= k < places@.len() ==> (#[trigger] places@[k]) < before.ids().len(),
            forall|k: int, j: int|
                0 <= k < j < places@.len() ==> (#[trigger] places@[k]) != (#[trigger] places@[j]),
            forall|k: int|
                0 <= k < places@.len() ==> {
                    &&& before.values()[(#[trigger] places@[k]) as int]@.wf()
                    &&& before.values()[places@[k] as int]@.admits_diffusion(
                        all[k].sigma,
                        all[k].weights@,
                    )
                },
            forall|k: int|
                i <= k < places@.len() ==> players.values()[(#[trigger] places@[k]) as int]@
                    == before.values()[places@[k] as int]@.diffused(
                    all[k].sigma,
                    all[k].anchor,
                    all[k].weights@,
                    all[k].delta,
                ),
            forall|s: int|
                0 <= s < before.values().len() && (forall|k: int|
                    i <= k < places@.len() ==> (#[trigger] places@[k]) != s) ==> (
                #[trigger] players.values()[s]) == before.values()[s],
        decreases i,
    {
        i -= 1;
        let place = places[i];
        let ghost values_before = players.values();
        match diffusions.pop() {
            Some(diffusion) => {
                assert(diffusion == all[i as int]);
                assert(all.take(i as int) =~= all.take(i + 1).drop_last());
                assert(forall|k: int| i < k < places@.len() ==> (#[trigger] places@[k]) != place);
                assert(players.values()[place as int] == before.values()[place as int]);
                let taken = players.value_at_mut(place).diffuse(diffusion);
                assert(taken);
                assert forall|k: int| i <= k < places@.len() implies players.values()[(
                #[trigger] places@[k]) as int]@ == before.values()[places@[k] as int]@.diffused(
                    all[k].sigma,
                    all[k].anchor,
                    all[k].weights@,
                    all[k].delta,
                ) by {
                    if k > i {
                        assert(places@[k] != place);
                        assert(players.values()[places@[k] as int] == values_before[places@[k] as int]);
                    }
                }
                assert forall|s: int|
                    0 <= s < before.values().len() && (forall|k: int|
                        i <= k < places@.len() ==> (#[trigger] places@[k]) != s) implies (
                #[trigger] players.values()[s]) == before.values()[s] by {
                    assert(places@[i as int] != s);
                    assert(players.values()[s] == values_before[s]);
                    assert(forall|k: int| i + 1 <= k < places@.len() ==> (#[trigger] places@[k]) != s);
                }
            },
            None => {},
        }
    }
}

/// Folds each outcome into the record at its place.
pub(crate) fn apply_outcomes(
    players: &mut Table<Player>,
    places: &Vec<usize>,
    standings: &Vec<Standing>,
    contest_id: i64,
    outcomes: &Vec<Outcome>,
)
    requires
        old(players).wf(),
        places@.len() == outcomes@.len(),
        places@.len() == standings@.len(),
        forall|i: int| 0 <= i < places@.len() ==> (#[trigger] places@[i]) < old(players).ids().len(),
        forall|i: int, j: int|
            0 <= i < j < places@.len() ==> (#[trigger] places@[i]) != (#[trigger] places@[j]),
        forall|i: int|
            0 <= i < places@.len() ==> {
                &&& old(players).values()[(#[trigger] places@[i]) as int]@.wf()
                &&& old(players).values()[places@[i] as int]@.admits_outcome(outcomes@[i])
            },
    ensures
        final(players).wf(),
        final(players).ids() == old(players).ids(),
        final(players).values().len() == old(players).values().len(),
        forall|i: int|
            0 <= i < places@.len() ==> final(players).values()[(#[trigger] places@[i]) as int]@
                == old(players).values()[places@[i] as int]@.updated(
                contest_id,
                outcomes@[i],
                standings@[i].lo,
            ),
        forall|s: int|
            0 <= s < old(players).values().len() && (forall|i: int|
                0 <= i < places@.len() ==> (#[trigger] places@[i]) != s) ==> (
            #[trigger] final(players).values()[s]) == old(players).values()[s],
{
    let ghost before = *players;
    let mut i: usize = 0;
    proof {
        players.lemma_ids_distinct();
    }
    while i < places.len()
        invariant
            i <= places@.len(),
            places@.len() == outcomes@.len(),
            places@.len() == standings@.len(),
            players.wf(),
            before.wf(),
            players.ids() == before.ids(),
            players.values().len() == before.values().len(),
            before.values().len() == before.ids().len(),
            forall|k: int| 0 <= k < places@.len() ==> (#[trigger] places@[k]) < before.ids().len(),
            forall|k: int, j: int|
                0 <= k < j < places@.len() ==> (#[trigger] places@[k]) != (#[trigger] places@[j]),
            forall|k: int|
                0 <= k < places@.len() ==> {
                    &&& before.values()[(#[trigger] places@[k]) as int]@.wf()
                    &&& before.values()[places@[k] as int]@.admits_outcome(outcomes@[k])
                },
            forall|k: int|
                0 <= k < i ==> players.values()[(#[trigger] places@[k]) as int]@
                    == before.values()[places@[k] as int]@.updated(
                    contest_id,
                    outcomes@[k],
                    standings@[k].lo,
                ),
            forall|s: int|
                0 <= s < before.values().len() && (forall|k: int|
                    0 <= k < i ==> (#[trigger] places@[k]) != s) ==> (
                #[trigger] players.values()[s]) == before.values()[s],
        decreases places@.len() - i,
    {
        let place = places[i];
        let ghost values_before = players.values();
        assert(forall|k: int| 0 <= k < i ==> (#[trigger] places@[k]) != place);
        assert(players.values()[place as int] == before.values()[place as int]);
        let folded = players.value_at_mut(place).update(contest_id, outcomes[i], standings[i].lo);
        assert(folded);
        assert forall|k: int| 0 <= k < i + 1 implies players.values()[(
        #[trigger] places@[k]) as int]@ == before.values()[places@[k] as int]@.updated(
            contest_id,
            outcomes@[k],
            standings@[k].lo,
        ) by {
            if k < i {
                assert(places@[k] != place);
                assert(players.values()[places@[k] as int] == values_before[places@[k] as int]);
            }
        }
        assert forall|s: int|
            0 <= s < before.values().len() && (forall|k: int|
                0 <= k < i + 1 ==> (#[trigger] places@[k]) != s) implies (
        #[trigger] players.values()[s]) == before.values()[s] by {
            assert(places@[i as int] != s);
            assert(players.values()[s] == values_before[s]);
            assert(forall|k: int| 0 <= k < i ==> (#[trigger] places@[k]) != s);
        }
        i += 1;
    }
}

/// The ratings of the records as a scoreboard: for each place the id and the
/// key of the rating.
pub open spec fn board_of(ids: Seq<i64>, records: Seq<PlayerView>) -> Seq<(i64, i64)> {
    Seq::new(ids.len(), |s: int| (ids[s], records[s].mu.key))
}

/// Reads the ratings of all players as a scoreboard.
pub(crate) fn rating_snapshot(players: &Table<Player>) -> (board: Vec<(i64, i64)>)
    requires
        players.wf(),
    ensures
        board@ == board_of(players.ids(), players.values().map_values(|player: Player| player@)),
{
    let n = players.len();
    let mut board: Vec<(i64, i64)> = Vec::new();
    let mut s: usize = 0;
    proof {
        players.lemma_ids_distinct();
    }
    while s < n
        invariant
            players.wf(),
            n == players.ids().len(),
            n == players.values().len(),
            s <= n,
            board@.len() == s,
            forall|k: int|
                0 <= k < s ==> (#[trigger] board@[k]) == (
                    players.ids()[k],
                    players.values()[k]@.mu.key,
                ),
        decreases n - s,
    {
        let id = players.id_at(s);
        let key = players.value_at(s).mu().key();
        board.push((id, key));
        s += 1;
    }
    assert(board@ =~= board_of(
        players.ids(),
        players.values().map_values(|player: Player| player@),
    ));
    board
}

/// The views of the records of a table, in the order of their ids.
pub open spec fn views_of(values: Seq<Player>) -> Seq<PlayerView> {
    values.map_values(|player: Player| player@)
}

/// Gives every record whose latest contest lacks a rating rank the best
/// position of its rating in the ranking.
pub(crate) fn backfill_ranks(players: &mut Table<Player>, ranking: &Vec<Standing>)
    requires
        old(players).wf(),
        is_standings_of(ranking@, board_of(old(players).ids(), views_of(old(players).values()))),
        forall|s: int|
            0 <= s < old(players).values().len() ==> (#[trigger] old(players).values()[s])@.wf(),
    ensures
        final(players).wf(),
        final(players).ids() == old(players).ids(),
        final(players).values().len() == old(players).values().len(),
        forall|s: int|
            0 <= s < old(players).values().len() ==> (#[trigger] final(players).values()[s])@
                == old(players).values()[s]@.backfilled(
                lo_rank(
                    board_of(old(players).ids(), views_of(old(players).values())),
                    old(players).values()[s]@.mu.key,
                ) as usize,
            ),
{
    let ghost before = *players;
    let ghost board = board_of(before.ids(), views_of(before.values()));
    let ghost listing = entries_of(ranking@);
    proof {
        players.lemma_ids_distinct();
        board.to_multiset_ensures();
        listing.to_multiset_ensures();
    }
    let mut k: usize = 0;
    while k < ranking.len()
        invariant
            k <= ranking@.len(),
            before.wf(),
            players.wf(),
            players.ids() == before.ids(),
            players.values().len() == before.values().len(),
            before.values().len() == before.ids().len(),
            before.ids().no_duplicates(),
            board == board_of(before.ids(), views_of(before.values())),
            listing == entries_of(ranking@),
            is_standings_of(ranking@, board),
            forall|s: int| 0 <= s < before.values().len() ==> (#[trigger] before.values()[s])@.wf(),
            forall|s: int|
                0 <= s < before.values().len() ==> {
                    ||| (#[trigger] players.values()[s])@ == before.values()[s]@
                    ||| players.values()[s]@ == before.values()[s]@.backfilled(
                        lo_rank(board, before.values()[s]@.mu.key) as usize,
                    )
                },
            forall|j: int, s: int|
                0 <= j < k && 0 <= s < before.ids().len() && (#[trigger] ranking@[j]).player_id
                    == #[trigger] before.ids()[s] ==> players.values()[s]@
                    == before.values()[s]@.backfilled(
                    lo_rank(board, before.values()[s]@.mu.key) as usize,
                ),
        decreases ranking@.len() - k,
    {
        let line = ranking[k];
        let ghost values_before = players.values();
        proof {
            let entry = (line.player_id, line.score);
            assert(listing[k as int] == entry);
            assert(listing.contains(entry));
            to_multiset_contains(listing, entry);
            to_multiset_contains(board, entry);
            assert(listing.to_multiset() == board.to_multiset());
            assert(board.contains(entry));
        }
        let ghost at = choose|at: int|
            0 <= at < board.len() && board[at] == (line.player_id, line.score);
        match players.position(line.player_id) {
            Some(place) => {
                assert(place == at);
                assert(line.lo == lo_rank(board, before.values()[at]@.mu.key));
                proof {
                    lemma_backfilled_twice(before.values()[at]@, line.lo);
                }
                players.value_at_mut(place).backfill(line.lo);
                assert forall|s: int| 0 <= s < before.values().len() implies {
                    ||| (#[trigger] players.values()[s])@ == before.values()[s]@
                    ||| players.values()[s]@ == before.values()[s]@.backfilled(
                        lo_rank(board, before.values()[s]@.mu.key) as usize,
                    )
                } by {
                    if s != at {
                        assert(players.values()[s] == values_before[s]);
                    }
                }
                assert forall|j: int, s: int|
                    0 <= j < k + 1 && 0 <= s < before.ids().len() && (
                    #[trigger] ranking@[j]).player_id
                        == #[trigger] before.ids()[s] implies players.values()[s]@
                    == before.values()[s]@.backfilled(
                    lo_rank(board, before.values()[s]@.mu.key) as usize,
                ) by {
                    if s != at {
                        assert(players.values()[s] == values_before[s]);
                    }
                }
            },
            None => {
                assert(before.ids()[at] == line.player_id);
                assert(false);
            },
        }
        k += 1;
    }
    proof {
        assert forall|s: int| 0 <= s < before.values().len() implies (
        #[trigger] players.values()[s])@ == before.values()[s]@.backfilled(
            lo_rank(board, before.values()[s]@.mu.key) as usize,
        ) by {
            assert(board.contains(board[s]));
            to_multiset_contains(listing, board[s]);
            to_multiset_contains(board, board[s]);
            assert(listing.to_multiset() == board.to_multiset());
            assert(listing.contains(board[s]));
            let j = choose|j: int| 0 <= j < listing.len() && listing[j] == board[s];
            assert(ranking@[j].player_id == before.ids()[s]);
        }
    }
}

/// The ratings of a ranking: each line's player with the rating whose key the
/// line carries as its score.
pub open spec fn ratings_of(ranking: Seq<Standing>) -> Seq<(i64, Scalar)> {
    ranking.map_values(|line: Standing| (line.player_id, Scalar { key: line.score }))
}

/// The scoreboard that a list of ratings stands for.
pub open spec fn keyed(ratings: Seq<(i64, Scalar)>) -> Seq<(i64, i64)> {
    ratings.map_values(|entry: (i64, Scalar)| (entry.0, entry.1.key))
}

/// `ratings` lists the entries of the board, each as often as the board has
/// it, from the highest rating to the lowest.
pub open spec fn is_ranking_of(ratings: Seq<(i64, Scalar)>, board: Seq<(i64, i64)>) -> bool {
    &&& keyed(ratings).to_multiset() == board.to_multiset()
    &&& descending(keyed(ratings))
}

/// Reads the ratings off a ranking.
pub(crate) fn read_ratings(ranking: &Vec<Standing>) -> (ratings: Vec<(i64, Scalar)>)
    ensures
        ratings@ == ratings_of(ranking@),
        keyed(ratings@) == entries_of(ranking@),
{
    let mut ratings: Vec<(i64, Scalar)> = Vec::new();
    let mut k: usize = 0;
    while k < ranking.len()
        invariant
            k <= ranking@.len(),
            ratings@.len() == k,
            forall|j: int|
                0 <= j < k ==> (#[trigger] ratings@[j]) == (
                    ranking@[j].player_id,
                    Scalar { key: ranking@[j].score },
                ),
        decreases ranking@.len() - k,
    {
        ratings.push((ranking[k].player_id, Scalar { key: ranking[k].score }));
        k += 1;
    }
    assert(ratings@ =~= ratings_of(ranking@));
    assert(keyed(ratings@) =~= entries_of(ranking@));
    ratings
}

/// A copy of a history.
pub(crate) fn copy_history(history: &Vec<PlayerHistoryEntry>) -> (copy: Vec<PlayerHistoryEntry>)
    ensures
        copy@ == history@,
{
    let mut copy: Vec<PlayerHistoryEntry> = Vec::new();
    let mut i: usize = 0;
    while i < history.len()
        invariant
            i <= history.len(),
            copy@ == history@.take(i as int),
        decreases history.len() - i,
    {
        copy.push(history[i]);
        assert(history@.take(i + 1) =~= history@.take(i as int).push(history@[i as int]));
        i += 1;
    }
    assert(history@.take(history.len() as int) =~= history@);
    copy
}

} // verus!
