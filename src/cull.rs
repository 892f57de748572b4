//! Borda-count aggregation of per-voter score lists.
use vstd::prelude::*;

use crate::order::{is_sorted_order, stably_before};
use crate::InputError;

verus! {

/// One voter's scores, one entry per candidate in a shared candidate order.
/// Higher scores are preferred; only the order of the scores matters.
#[derive(Clone, Debug)]
pub struct Ranking {
    pub scores: Vec<usize>,
}

/// How many of the first `n` candidates come before candidate `j` in the stable ascending
/// order of `s`.
pub open spec fn count_before(s: Seq<usize>, j: int, n: int) -> nat
    decreases n,
{
    if n <= 0 {
        0
    } else {
        count_before(s, j, n - 1) + if stably_before(s, n - 1, j) {
            1nat
        } else {
            0nat
        }
    }
}

/// The Borda points that a voter with scores `s` gives candidate `j`: its position in that
/// voter's order of preference, from 0 for the least preferred up to `s.len() - 1`.
pub open spec fn points(s: Seq<usize>, j: int) -> nat {
    count_before(s, j, s.len() as int)
}

/// The points that candidate `j` collects over all the voters of `rs`.
pub open spec fn total_points(rs: Seq<Seq<usize>>, j: int) -> nat
    decreases rs.len(),
{
    if rs.len() == 0 {
        0
    } else {
        total_points(rs.drop_last(), j) + points(rs.last(), j)
    }
}

/// The score lists of `rankings`.
pub open spec fn scores_of(rankings: Seq<Ranking>) -> Seq<Seq<usize>> {
    rankings.map_values(|r: Ranking| r.scores@)
}

/// Every score list of `rs` has as many entries as the first.
pub open spec fn same_lengths(rs: Seq<Seq<usize>>) -> bool {
    forall|v: int| 0 <= v < rs.len() ==> #[trigger] rs[v].len() == rs[0].len()
}

/// The Borda count of `rs`: for each candidate of the first list, its total points.
pub open spec fn aggregate(rs: Seq<Seq<usize>>) -> Seq<usize> {
    if rs.len() == 0 {
        Seq::empty()
    } else {
        Seq::new(rs[0].len(), |j: int| total_points(rs, j) as usize)
    }
}

proof fn lemma_count_before_bound(s: Seq<usize>, j: int, n: int)
    requires
        0 <= n,
    ensures
        count_before(s, j, n) <= n,
    decreases n,
{
    if n > 0 {
        lemma_count_before_bound(s, j, n - 1);
    }
}

/// A candidate never comes before itself, so it gets at most `s.len() - 1` points.
proof fn lemma_points_bound(s: Seq<usize>, j: int)
    requires
        0 <= j < s.len(),
    ensures
        points(s, j) < s.len(),
{
    lemma_count_below_self(s, j, s.len() as int);
}

proof fn lemma_count_below_self(s: Seq<usize>, j: int, n: int)
    requires
        0 <= j < n,
    ensures
        count_before(s, j, n) < n,
    decreases n,
{
    if n - 1 == j {
        lemma_count_before_bound(s, j, n - 1);
    } else {
        lemma_count_below_self(s, j, n - 1);
    }
}

/// A candidate that comes after another collects strictly more points.
proof fn lemma_count_monotone(s: Seq<usize>, i: int, j: int, n: int)
    requires
        0 <= i < s.len(),
        0 <= j < s.len(),
        0 <= n <= s.len(),
        stably_before(s, i, j),
    ensures
        count_before(s, i, n) <= count_before(s, j, n),
        n > i ==> count_before(s, i, n) < count_before(s, j, n),
    decreases n,
{
    if n > 0 {
        lemma_count_monotone(s, i, j, n - 1);
    }
}

/// With `rs.len()` voters over `k` candidates, a candidate collects at most `rs.len() * (k - 1)` points.
pub proof fn lemma_total_points_bound(rs: Seq<Seq<usize>>, j: int, k: int)
    requires
        0 <= j < k,
        forall|v: int| 0 <= v < rs.len() ==> #[trigger] rs[v].len() == k,
    ensures
        total_points(rs, j) <= rs.len() * (k - 1),
    decreases rs.len(),
{
    if rs.len() > 0 {
        let front = rs.drop_last();
        assert forall|v: int| 0 <= v < front.len() implies #[trigger] front[v].len() == k by {
            assert(front[v] == rs[v]);
        }
        lemma_total_points_bound(front, j, k);
        lemma_points_bound(rs.last(), j);
        assert((rs.len() - 1) * (k - 1) + (k - 1) == rs.len() * (k - 1)) by (nonlinear_arith);
    }
}

/// For each candidate, its points in the voter's order of preference.
fn ranks(scores: &Vec<usize>) -> (r: Vec<usize>)
    ensures
        r@.len() == scores@.len(),
        forall|j: int| 0 <= j < r@.len() ==> #[trigger] r@[j] == points(scores@, j),
{
    let n = scores.len();
    let mut r: Vec<usize> = Vec::new();
    let mut j: usize = 0;
    while j < n
        invariant
            n == scores@.len(),
            j <= n,
            r@.len() == j,
            forall|x: int| 0 <= x < j ==> #[trigger] r@[x] == points(scores@, x),
        decreases n - j,
    {
        let mut count: usize = 0;
        let mut i: usize = 0;
        while i < n
            invariant
                n == scores@.len(),
                j < n,
                i <= n,
                count == count_before(scores@, j as int, i as int),
            decreases n - i,
        {
            proof {
                lemma_count_before_bound(scores@, j as int, i as int);
            }
            if scores[i] < scores[j] || (scores[i] == scores[j] && i < j) {
                count = count + 1;
            }
            i = i + 1;
        }
        r.push(count);
        j = j + 1;
    }
    r
}

/// Borda count of `rankings`: one total per candidate, where each voter gives each candidate
/// its position in that voter's ascending order of scores (ties in stable order).
/// An empty list gives an empty result; lists of different lengths are refused.
pub fn borda_count(rankings: &[Ranking]) -> (r: Result<Vec<usize>, InputError>)
    requires
        rankings@.len() > 0 ==> rankings@.len() * rankings@[0].scores@.len() <= usize::MAX,
    ensures
        r is Err <==> !same_lengths(scores_of(rankings@)),
        r is Err ==> r == Err::<Vec<usize>, InputError>(InputError::RankingLengthMismatch),
        r matches Ok(c) ==> c@ == aggregate(scores_of(rankings@)),
        r matches Ok(c) ==> forall|j: int|
            0 <= j < c@.len() ==> #[trigger] c@[j] == total_points(scores_of(rankings@), j),
{
    let ghost rs = scores_of(rankings@);
    let m = rankings.len();
    if m == 0 {
        let empty: Vec<usize> = Vec::new();
        proof {
            assert(empty@ =~= aggregate(rs));
        }
        return Ok(empty);
    }
    let k = rankings[0].scores.len();
    let mut v: usize = 1;
    while v < m
        invariant
            m == rankings@.len(),
            rs == scores_of(rankings@),
            k == rs[0].len(),
            1 <= v <= m,
            forall|w: int| 0 <= w < v ==> #[trigger] rs[w].len() == k,
        decreases m - v,
    {
        if rankings[v].scores.len() != k {
            proof {
                assert(rs[v as int].len() != rs[0].len());
            }
            return Err(InputError::RankingLengthMismatch);
        }
        v = v + 1;
    }
    assert(same_lengths(rs));
    let mut totals: Vec<usize> = Vec::new();
    let mut j: usize = 0;
    while j < k
        invariant
            j <= k,
            totals@.len() == j,
            forall|x: int| 0 <= x < j ==> #[trigger] totals@[x] == 0,
        decreases k - j,
    {
        totals.push(0);
        j = j + 1;
    }
    v = 0;
    while v < m
        invariant
            m == rankings@.len(),
            rs == scores_of(rankings@),
            m * k <= usize::MAX,
            k == rs[0].len(),
            v <= m,
            same_lengths(rs),
            totals@.len() == k,
            forall|x: int| 0 <= x < k ==> #[trigger] totals@[x] == total_points(rs.take(v as int), x),
        decreases m - v,
    {
        let voter = ranks(&rankings[v].scores);
        let ghost before = totals@;
        proof {
            assert(rs.take(v as int + 1).drop_last() =~= rs.take(v as int));
            assert(rs.take(v as int + 1).last() == rs[v as int]);
            assert forall|w: int| 0 <= w < rs.take(v as int + 1).len() implies #[trigger] rs.take(
                v as int + 1,
            )[w].len() == k by {
                assert(rs[w].len() == k);
            }
        }
        let mut x: usize = 0;
        while x < k
            invariant
                m == rankings@.len(),
                rs == scores_of(rankings@),
                m * k <= usize::MAX,
                k == rs[0].len(),
                v < m,
                same_lengths(rs),
                voter@.len() == k,
                forall|y: int| 0 <= y < k ==> #[trigger] voter@[y] == points(rs[v as int], y),
                forall|w: int| 0 <= w < rs.take(v as int + 1).len() ==> #[trigger] rs.take(
                    v as int + 1,
                )[w].len() == k,
                rs.take(v as int + 1).drop_last() == rs.take(v as int),
                rs.take(v as int + 1).last() == rs[v as int],
                x <= k,
                totals@.len() == k,
                forall|y: int| 0 <= y < x ==> #[trigger] totals@[y] == total_points(rs.take(v as int + 1), y),
                forall|y: int| x <= y < k ==> #[trigger] totals@[y] == before[y],
                forall|y: int| 0 <= y < k ==> #[trigger] before[y] == total_points(rs.take(v as int), y),
            decreases k - x,
        {
            proof {
                lemma_total_points_bound(rs.take(v as int + 1), x as int, k as int);
                assert((v + 1) * (k - 1) <= m * k) by (nonlinear_arith)
                    requires v < m, x < k;
            }
            let sum = totals[x] + voter[x];
            totals.set(x, sum);
            x = x + 1;
        }
        v = v + 1;
    }
    proof {
        assert(rs.take(m as int) =~= rs);
        assert(totals@ =~= aggregate(rs));
    }
    Ok(totals)
}

/// Within one voter's scores, a candidate that comes before another gets fewer points, and
/// one that does not (and differs from it) gets more.
proof fn lemma_points_order(s: Seq<usize>, i: int, j: int)
    requires
        0 <= i < s.len(),
        0 <= j < s.len(),
    ensures
        stably_before(s, i, j) <==> points(s, i) < points(s, j),
{
    if stably_before(s, i, j) {
        lemma_count_monotone(s, i, j, s.len() as int);
    } else if i != j {
        assert(stably_before(s, j, i));
        lemma_count_monotone(s, j, i, s.len() as int);
    }
}

/// A single voter's Borda count orders the candidates exactly as that voter's scores do:
/// sorting the aggregate and sorting the scores give the same order of candidates.
pub proof fn lemma_single_voter_order(r: Seq<usize>)
    requires
        r.len() <= usize::MAX,
    ensures
        aggregate(seq![r]).len() == r.len(),
        forall|p: Seq<usize>| #[trigger] is_sorted_order(r, p) <==> is_sorted_order(aggregate(seq![r]), p),
{
    let rs = seq![r];
    let a = aggregate(rs);
    assert(rs.drop_last() =~= Seq::<Seq<usize>>::empty());
    assert forall|j: int| 0 <= j < r.len() implies #[trigger] a[j] as int == points(r, j) by {
        lemma_points_bound(r, j);
        assert(rs.last() == r);
        assert(total_points(rs.drop_last(), j) == 0);
        assert(total_points(rs, j) == points(r, j));
    }
    assert forall|i: int, j: int| 0 <= i < r.len() && 0 <= j < r.len() implies
        #[trigger] stably_before(r, i, j) == #[trigger] stably_before(a, i, j) by {
        lemma_points_order(r, i, j);
        lemma_points_order(r, j, i);
    }
    assert forall|p: Seq<usize>| #[trigger] is_sorted_order(r, p) implies is_sorted_order(a, p) by {
        assert forall|k: int, l: int| 0 <= k < l < p.len() implies stably_before(
            a,
            #[trigger] p[k] as int,
            #[trigger] p[l] as int,
        ) by {
            assert(stably_before(r, p[k] as int, p[l] as int));
        }
    }
    assert forall|p: Seq<usize>| #[trigger] is_sorted_order(a, p) implies is_sorted_order(r, p) by {
        assert forall|k: int, l: int| 0 <= k < l < p.len() implies stably_before(
            r,
            #[trigger] p[k] as int,
            #[trigger] p[l] as int,
        ) by {
            assert(stably_before(a, p[k] as int, p[l] as int));
        }
    }
}

} // verus!
