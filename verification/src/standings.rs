//! Standings of one contest, with a range of ranks for tied entries.

use crate::sorting::{descending, sort_descending};
use vstd::prelude::*;

verus! {

/// One line of a contest's standings: a player, the score, and the best (`lo`)
/// and worst (`hi`) position, counted from 1, that this score takes.
#[derive(Clone, Copy, Debug, PartialEq, Eq, Structural)]
pub struct Standing {
    pub player_id: i64,
    pub score: i64,
    pub lo: usize,
    pub hi: usize,
}

/// How many entries have a score of `bound` or more.
pub open spec fn count_at_least(entries: Seq<(i64, i64)>, bound: int) -> nat
    decreases entries.len(),
{
    if entries.len() == 0 {
        0
    } else {
        count_at_least(entries.drop_last(), bound) + if entries.last().1 >= bound {
            1nat
        } else {
            0nat
        }
    }
}

/// The best position of `score`: one more than the number of better entries.
pub open spec fn lo_rank(entries: Seq<(i64, i64)>, score: i64) -> nat {
    count_at_least(entries, score + 1) + 1
}

/// The worst position of `score`: the number of entries that are no worse.
pub open spec fn hi_rank(entries: Seq<(i64, i64)>, score: i64) -> nat {
    count_at_least(entries, score as int)
}

/// The scoreboard that a list of standings ranks, in the list's order.
pub open spec fn entries_of(standings: Seq<Standing>) -> Seq<(i64, i64)> {
    standings.map_values(|line: Standing| (line.player_id, line.score))
}

/// `standings` ranks `scores`: it holds the same entries, the best first, and
/// each line carries the rank range of its score.
pub open spec fn is_standings_of(standings: Seq<Standing>, scores: Seq<(i64, i64)>) -> bool {
    &&& standings.len() == scores.len()
    &&& entries_of(standings).to_multiset() == scores.to_multiset()
    &&& descending(entries_of(standings))
    &&& forall|i: int|
        0 <= i < standings.len() ==> {
            &&& (#[trigger] standings[i]).lo == lo_rank(scores, standings[i].score)
            &&& standings[i].hi == hi_rank(scores, standings[i].score)
        }
}

/// Ranks a scoreboard of (player, score) entries, a higher score being
/// better. The lines come out from the best score to the worst; entries with
/// one score share one rank range, and their order among each other is left
/// open.
pub fn compute_standings(scores: Vec<(i64, i64)>) -> (standings: Vec<Standing>)
    ensures
        is_standings_of(standings@, scores@),
{
    let ghost given = scores@;
    let mut sorted = scores;
    sort_descending(&mut sorted);
    let n = sorted.len();
    let mut standings: Vec<Standing> = Vec::new();
    if n == 0 {
        assert(entries_of(standings@) =~= sorted@);
        return standings;
    }
    // Forward: the best position of each score.
    let mut rank_int: usize = 1;
    let mut rank_app: usize = 1;
    standings.push(Standing { player_id: sorted[0].0, score: sorted[0].1, lo: 1, hi: 0 });
    proof {
        lemma_count_sorted(sorted@, sorted[0].1 + 1);
    }
    let mut i: usize = 1;
    while i < n
        invariant
            n == sorted.len(),
            1 <= i <= n,
            descending(sorted@),
            standings.len() == i,
            rank_int == i,
            1 <= rank_app <= i,
            sorted[rank_app - 1].1 == sorted[i - 1].1,
            rank_app == 1 || sorted[rank_app - 2].1 > sorted[rank_app - 1].1,
            forall|k: int|
                0 <= k < i ==> {
                    &&& (#[trigger] standings[k]).player_id == sorted[k].0
                    &&& standings[k].score == sorted[k].1
                    &&& standings[k].lo == lo_rank(sorted@, sorted[k].1)
                },
        decreases n - i,
    {
        rank_int += 1;
        if sorted[i].1 != sorted[i - 1].1 {
            rank_app = rank_int;
        }
        proof {
            lemma_count_sorted(sorted@, sorted[i as int].1 + 1);
            assert(sorted@[rank_app - 1].1 == sorted@[i as int].1);
            assert(rank_app > 1 ==> sorted@[rank_app - 2].1 > sorted@[i as int].1);
        }
        standings.push(Standing { player_id: sorted[i].0, score: sorted[i].1, lo: rank_app, hi: 0 });
        i += 1;
    }
    // Backward: the worst position of each score.
    rank_app = n;
    i = n - 1;
    proof {
        lemma_count_sorted(sorted@, sorted[i as int].1 as int);
    }
    let last = standings[i];
    standings.set(i, Standing { player_id: last.player_id, score: last.score, lo: last.lo, hi: n });
    while i > 0
        invariant
            n == sorted.len(),
            0 <= i < n,
            descending(sorted@),
            standings.len() == n,
            rank_int == i + 1,
            i + 1 <= rank_app <= n,
            sorted[rank_app - 1].1 == sorted[i as int].1,
            rank_app == n || sorted[rank_app as int].1 < sorted[rank_app - 1].1,
            forall|k: int|
                0 <= k < n ==> {
                    &&& (#[trigger] standings[k]).player_id == sorted[k].0
                    &&& standings[k].score == sorted[k].1
                    &&& standings[k].lo == lo_rank(sorted@, sorted[k].1)
                },
            forall|k: int|
                i <= k < n ==> (#[trigger] standings[k]).hi == hi_rank(sorted@, sorted[k].1),
        decreases i,
    {
        i -= 1;
        rank_int -= 1;
        if sorted[i].1 != sorted[i + 1].1 {
            rank_app = rank_int;
        }
        proof {
            lemma_count_sorted(sorted@, sorted[i as int].1 as int);
            assert(sorted@[rank_app - 1].1 == sorted@[i as int].1);
            assert(rank_app < n ==> sorted@[rank_app as int].1 < sorted@[i as int].1);
        }
        let line = standings[i];
        standings.set(
            i,
            Standing { player_id: line.player_id, score: line.score, lo: line.lo, hi: rank_app },
        );
    }
    proof {
        assert(entries_of(standings@) =~= sorted@);
        assert forall|k: int| 0 <= k < standings.len() implies {
            &&& (#[trigger] standings[k]).lo == lo_rank(given, standings[k].score)
            &&& standings[k].hi == hi_rank(given, standings[k].score)
        } by {
            lemma_count_permutation(sorted@, given, standings[k].score + 1);
            lemma_count_permutation(sorted@, given, standings[k].score as int);
        }
    }
    standings
}

/// No player stands twice on the board.
pub open spec fn distinct_ids(entries: Seq<(i64, i64)>) -> bool {
    forall|a: int, b: int|
        0 <= a < b < entries.len() ==> (#[trigger] entries[a]).0 != (#[trigger] entries[b]).0
}

/// Whether a board lists each player once does not depend on its order.
pub proof fn lemma_distinct_ids_permutation(a: Seq<(i64, i64)>, b: Seq<(i64, i64)>)
    requires
        a.to_multiset() == b.to_multiset(),
        distinct_ids(a),
    ensures
        distinct_ids(b),
{
    assert forall|i: int, j: int| 0 <= i < j < b.len() implies (#[trigger] b[i]).0 != (
    #[trigger] b[j]).0 by {
        if b[i].0 == b[j].0 {
            a.to_multiset_ensures();
            b.to_multiset_ensures();
            let first = b[i];
            let second = b[j];
            let b_rest = b.remove(i);
            b_rest.to_multiset_ensures();
            assert(b_rest[j - 1] == second);
            assert(b_rest.contains(second));
            assert(b.contains(first));
            assert(a.to_multiset().count(first) > 0);
            assert(a.contains(first));
            let s = choose|s: int| 0 <= s < a.len() && a[s] == first;
            let a_rest = a.remove(s);
            a_rest.to_multiset_ensures();
            assert(a_rest.to_multiset() =~= b_rest.to_multiset());
            assert(a_rest.to_multiset().count(second) > 0);
            assert(a_rest.contains(second));
            let t = choose|t: int| 0 <= t < a_rest.len() && a_rest[t] == second;
            if t < s {
                assert(a[t] == second);
                assert(a[t].0 != a[s].0);
            } else {
                assert(a[t + 1] == second);
                assert(a[s].0 != a[t + 1].0);
            }
        }
    }
}

/// Taking one entry out lowers the count by one if that entry reached the bound.
pub proof fn lemma_count_remove(entries: Seq<(i64, i64)>, at: int, bound: int)
    requires
        0 <= at < entries.len(),
    ensures
        count_at_least(entries, bound) == count_at_least(entries.remove(at), bound) + if entries[at].1
            >= bound {
            1nat
        } else {
            0nat
        },
    decreases entries.len(),
{
    if at == entries.len() - 1 {
        assert(entries.remove(at) =~= entries.drop_last());
    } else {
        lemma_count_remove(entries.drop_last(), at, bound);
        assert(entries.remove(at).drop_last() =~= entries.drop_last().remove(at));
        assert(entries.remove(at).last() == entries.last());
    }
}

/// The count does not depend on the order of the entries.
pub proof fn lemma_count_permutation(a: Seq<(i64, i64)>, b: Seq<(i64, i64)>, bound: int)
    requires
        a.to_multiset() == b.to_multiset(),
    ensures
        count_at_least(a, bound) == count_at_least(b, bound),
    decreases a.len(),
{
    a.to_multiset_ensures();
    b.to_multiset_ensures();
    if a.len() == 0 {
        assert(b.len() == 0);
    } else {
        let last = a.last();
        let rest = a.drop_last();
        rest.to_multiset_ensures();
        assert(a =~= rest.push(last));
        assert(b.to_multiset().count(last) > 0);
        assert(b.contains(last));
        let at = choose|at: int| 0 <= at < b.len() && b[at] == last;
        assert(b.remove(at).to_multiset() =~= rest.to_multiset());
        lemma_count_permutation(rest, b.remove(at), bound);
        lemma_count_remove(b, at, bound);
    }
}

/// Where the scores never rise, the entries that reach a bound are exactly the
/// first so many.
pub proof fn lemma_count_sorted(entries: Seq<(i64, i64)>, bound: int)
    requires
        descending(entries),
    ensures
        count_at_least(entries, bound) <= entries.len(),
        forall|j: int|
            0 <= j < entries.len() ==> ((#[trigger] entries[j]).1 >= bound <==> j < count_at_least(
                entries,
                bound,
            )),
    decreases entries.len(),
{
    if entries.len() > 0 {
        let rest = entries.drop_last();
        assert forall|i: int, j: int| 0 <= i < j < rest.len() implies (#[trigger] rest[i]).1 >= (
        #[trigger] rest[j]).1 by {
            assert(rest[i] == entries[i] && rest[j] == entries[j]);
        }
        lemma_count_sorted(rest, bound);
        assert forall|j: int| 0 <= j < entries.len() implies ((#[trigger] entries[j]).1 >= bound
            <==> j < count_at_least(entries, bound)) by {
            if j < rest.len() {
                assert(rest[j] == entries[j]);
                assert(entries[j].1 >= entries.last().1);
            }
        }
    }
}

/// The best position of a score on the board is no worse than its worst.
pub proof fn lemma_lo_le_hi(entries: Seq<(i64, i64)>, at: int)
    requires
        0 <= at < entries.len(),
    ensures
        1 <= lo_rank(entries, entries[at].1) <= hi_rank(entries, entries[at].1) <= entries.len(),
    decreases entries.len(),
{
    let score = entries[at].1;
    lemma_count_mono(entries, score as int);
    lemma_count_bound(entries, score as int);
    if at == entries.len() - 1 {
        lemma_count_mono(entries.drop_last(), score as int);
    } else {
        assert(entries.drop_last()[at] == entries[at]);
        lemma_lo_le_hi(entries.drop_last(), at);
    }
}

/// Standings of a scoreboard are standings of the scoreboard that they list.
pub proof fn lemma_standings_of_own_entries(standings: Seq<Standing>, scores: Seq<(i64, i64)>)
    requires
        is_standings_of(standings, scores),
    ensures
        is_standings_of(standings, entries_of(standings)),
{
    assert forall|i: int| 0 <= i < standings.len() implies {
        &&& (#[trigger] standings[i]).lo == lo_rank(entries_of(standings), standings[i].score)
        &&& standings[i].hi == hi_rank(entries_of(standings), standings[i].score)
    } by {
        lemma_count_permutation(scores, entries_of(standings), standings[i].score + 1);
        lemma_count_permutation(scores, entries_of(standings), standings[i].score as int);
    }
}

/// Whether the line at `at` is the first of its group of equal scores.
pub open spec fn leads_group(standings: Seq<Standing>, at: int) -> bool {
    at == 0 || standings[at - 1].score != standings[at].score
}

/// The sum of `hi - lo + 1`, taken once for each group of equal scores that
/// begins among the first `upto` lines.
pub open spec fn group_sizes(standings: Seq<Standing>, upto: int) -> int
    decreases upto,
{
    if upto <= 0 {
        0
    } else {
        group_sizes(standings, upto - 1) + if leads_group(standings, upto - 1) {
            standings[upto - 1].hi - standings[upto - 1].lo + 1
        } else {
            0
        }
    }
}

/// In the standings of any scoreboard every line has `1 <= lo <= hi <= n`,
/// lines with one score have one rank range, and the rank ranges of the groups
/// of equal scores cover the `n` positions: their sizes `hi - lo + 1` add up
/// to `n`.
pub proof fn lemma_rank_ranges_cover(standings: Seq<Standing>, scores: Seq<(i64, i64)>)
    requires
        is_standings_of(standings, scores),
    ensures
        forall|i: int|
            0 <= i < standings.len() ==> 1 <= (#[trigger] standings[i]).lo <= standings[i].hi
                <= standings.len(),
        forall|i: int, j: int|
            0 <= i < standings.len() && 0 <= j < standings.len() && (#[trigger] standings[i]).score
                == (#[trigger] standings[j]).score ==> standings[i].lo == standings[j].lo
                && standings[i].hi == standings[j].hi,
        group_sizes(standings, standings.len() as int) == standings.len(),
{
    let sorted = entries_of(standings);
    assert forall|i: int| 0 <= i < standings.len() implies 1 <= (#[trigger] standings[i]).lo
        <= standings[i].hi <= standings.len() by {
        assert(sorted[i].1 == standings[i].score);
        lemma_count_permutation(scores, sorted, standings[i].score + 1);
        lemma_count_permutation(scores, sorted, standings[i].score as int);
        lemma_lo_le_hi(sorted, i);
    }
    if standings.len() > 0 {
        lemma_group_sizes_prefix(standings, scores, standings.len() as int);
        let last = standings.len() - 1;
        assert(sorted[last].1 == standings[last].score);
        lemma_count_permutation(scores, sorted, standings[last].score as int);
        lemma_count_sorted(sorted, standings[last].score as int);
    }
}

/// The groups that begin among the first `upto` lines reach as far as the
/// rank range of line `upto - 1` does.
proof fn lemma_group_sizes_prefix(standings: Seq<Standing>, scores: Seq<(i64, i64)>, upto: int)
    requires
        is_standings_of(standings, scores),
        1 <= upto <= standings.len(),
    ensures
        group_sizes(standings, upto) == standings[upto - 1].hi,
    decreases upto,
{
    let sorted = entries_of(standings);
    let at = upto - 1;
    let score = standings[at].score;
    assert(sorted[at].1 == score);
    lemma_count_permutation(scores, sorted, score + 1);
    lemma_count_permutation(scores, sorted, score as int);
    lemma_count_sorted(sorted, score + 1);
    lemma_count_sorted(sorted, score as int);
    if at == 0 {
        assert(group_sizes(standings, 0) == 0);
    } else {
        let before = standings[at - 1].score;
        assert(sorted[at - 1].1 == before);
        lemma_group_sizes_prefix(standings, scores, upto - 1);
        lemma_count_permutation(scores, sorted, before as int);
        lemma_count_sorted(sorted, before as int);
    }
}

/// Raising the bound by one never raises the count.
proof fn lemma_count_mono(entries: Seq<(i64, i64)>, bound: int)
    ensures
        count_at_least(entries, bound + 1) <= count_at_least(entries, bound),
    decreases entries.len(),
{
    if entries.len() > 0 {
        lemma_count_mono(entries.drop_last(), bound);
    }
}

/// No count exceeds the number of entries.
proof fn lemma_count_bound(entries: Seq<(i64, i64)>, bound: int)
    ensures
        count_at_least(entries, bound) <= entries.len(),
    decreases entries.len(),
{
    if entries.len() > 0 {
        lemma_count_bound(entries.drop_last(), bound);
    }
}

} // verus!
