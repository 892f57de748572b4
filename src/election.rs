//! The election of a cohort's discussion topics and the link that the cohort shares.
use vstd::prelude::*;
use vstd::relations::{sorted_by, total_ordering};

use crate::chance::index_range;
use crate::cull::{aggregate, borda_count, lemma_total_points_bound, scores_of, Ranking};
use crate::link::{meeting_link, meeting_url, topic_views};
use crate::listing::{is_sorted_listing, lemma_sorted_listing_unique, name_views, sort_names};
use crate::messages::{ElectionResults, UserTopic};

verus! {

/// How many topics a cohort elects.
pub const N_MEETING_TOPIC_WINNERS: usize = 2;

/// Failures of an election that show an inconsistency in the stored data.
#[derive(Clone, Copy, Debug, PartialEq, Eq, Structural)]
pub enum ElectionError {
    /// The cohort's members do not rank the same topics in the same order.
    TopicListMismatch,
}

/// The identifiers of a list of topics.
pub open spec fn topic_ids(topics: Seq<UserTopic>) -> Seq<u32> {
    topics.map_values(|t: UserTopic| t.id)
}

/// The scores of a list of topics.
pub open spec fn topic_scores(topics: Seq<UserTopic>) -> Seq<usize> {
    topics.map_values(|t: UserTopic| t.score as usize)
}

/// Each member's scores, in the shared topic order.
pub open spec fn ballots(member_topics: Seq<Vec<UserTopic>>) -> Seq<Seq<usize>> {
    member_topics.map_values(|l: Vec<UserTopic>| topic_scores(l@))
}

/// Every member ranks the same topics, in the same order.
pub open spec fn same_topics(member_topics: Seq<Vec<UserTopic>>) -> bool {
    forall|v: int|
        0 <= v < member_topics.len() ==> #[trigger] topic_ids(member_topics[v]@) == topic_ids(
            member_topics[0]@,
        )
}

/// How many winners an election over `n` topics has.
pub open spec fn n_winners(n: nat) -> nat {
    if n < N_MEETING_TOPIC_WINNERS {
        n
    } else {
        N_MEETING_TOPIC_WINNERS as nat
    }
}

/// `winners` are the topics that the members' rankings elect, best first: the first topics in
/// descending order of Borda points (ties by ascending topic identifier), each with its points
/// as its score and the text that the first member's list gives it.
pub open spec fn is_winner_list(member_topics: Seq<Vec<UserTopic>>, winners: Seq<UserTopic>) -> bool {
    if member_topics.len() == 0 {
        winners.len() == 0
    } else {
        let first = member_topics[0]@;
        let points = aggregate(ballots(member_topics));
        let ids = topic_ids(first);
        exists|o: Seq<usize>|
            #[trigger] is_candidate_order(points, ids, o) && winners.len() == n_winners(first.len())
                && forall|a: int|
                0 <= a < winners.len() ==> {
                    &&& (#[trigger] winners[a]).id == ids[o[a] as int]
                    &&& winners[a].score as usize == points[o[a] as int]
                    &&& winners[a].text@ == first[o[a] as int].text@
                }
    }
}

/// Candidate `i` ranks above candidate `j`: more points, or as many points and a smaller topic
/// identifier, or both equal and an earlier position.
pub open spec fn outranks(points: Seq<usize>, ids: Seq<u32>, i: int, j: int) -> bool {
    ||| points[i] > points[j]
    ||| (points[i] == points[j] && ids[i] < ids[j])
    ||| (points[i] == points[j] && ids[i] == ids[j] && i < j)
}

/// The order in which candidates are listed, best first.
pub open spec fn ranks_above(points: Seq<usize>, ids: Seq<u32>) -> spec_fn(usize, usize) -> bool {
    |i: usize, j: usize| i == j || outranks(points, ids, i as int, j as int)
}

/// `order` lists every candidate exactly once, best first.
pub open spec fn is_candidate_order(points: Seq<usize>, ids: Seq<u32>, order: Seq<usize>) -> bool {
    &&& order.to_multiset() == index_range(points.len()).to_multiset()
    &&& sorted_by(order, ranks_above(points, ids))
}

/// Ranking candidates is a total order.
pub proof fn lemma_ranks_above_total(points: Seq<usize>, ids: Seq<u32>)
    ensures
        total_ordering(ranks_above(points, ids)),
{
}

/// There is only one way to list the candidates best first.
pub proof fn lemma_candidate_order_unique(
    points: Seq<usize>,
    ids: Seq<u32>,
    o1: Seq<usize>,
    o2: Seq<usize>,
)
    requires
        is_candidate_order(points, ids, o1),
        is_candidate_order(points, ids, o2),
    ensures
        o1 == o2,
{
    lemma_ranks_above_total(points, ids);
    vstd::seq_lib::lemma_sorted_unique(o1, o2, ranks_above(points, ids));
}

/// The candidates `0..points.len()`, best first.
pub fn order_candidates(points: &Vec<usize>, ids: &Vec<u32>) -> (order: Vec<usize>)
    requires
        points@.len() == ids@.len(),
    ensures
        is_candidate_order(points@, ids@, order@),
{
    broadcast use vstd::seq_lib::group_to_multiset_ensures;

    let n = points.len();
    let mut rest: Vec<usize> = Vec::new();
    let mut i: usize = 0;
    while i < n
        invariant
            n == points@.len(),
            i <= n,
            rest@ == index_range(i as nat),
        decreases n - i,
    {
        rest.push(i);
        proof {
            assert(rest@ =~= index_range((i + 1) as nat));
        }
        i = i + 1;
    }
    proof {
        lemma_ranks_above_total(points@, ids@);
    }
    let ghost all = rest@;
    let ghost leq = ranks_above(points@, ids@);
    let mut order: Vec<usize> = Vec::new();
    while rest.len() > 0
        invariant
            n == points@.len(),
            n == ids@.len(),
            all == index_range(n as nat),
            leq == ranks_above(points@, ids@),
            total_ordering(leq),
            forall|y: int| 0 <= y < rest@.len() ==> #[trigger] rest@[y] < n,
            order@.to_multiset().add(rest@.to_multiset()) == all.to_multiset(),
            sorted_by(order@, leq),
            forall|x: int, y: int|
                0 <= x < order@.len() && 0 <= y < rest@.len() ==> leq(
                    #[trigger] order@[x],
                    #[trigger] rest@[y],
                ),
        decreases rest@.len(),
    {
        let mut best: usize = 0;
        let mut j: usize = 1;
        proof {
            assert(leq(rest@[0], rest@[0]));
        }
        while j < rest.len()
            invariant
                n == points@.len(),
                n == ids@.len(),
                leq == ranks_above(points@, ids@),
                total_ordering(leq),
                forall|y: int| 0 <= y < rest@.len() ==> #[trigger] rest@[y] < n,
                0 <= best < j <= rest@.len(),
                forall|y: int| 0 <= y < j ==> leq(rest@[best as int], #[trigger] rest@[y]),
            decreases rest@.len() - j,
        {
            let b = rest[best];
            let c = rest[j];
            if points[c] > points[b] || (points[c] == points[b] && ids[c] < ids[b]) || (points[c]
                == points[b] && ids[c] == ids[b] && c < b) {
                proof {
                    assert(leq(c, b));
                    assert forall|y: int| 0 <= y < j implies leq(c, #[trigger] rest@[y]) by {
                        assert(leq(b, rest@[y]));
                    }
                    assert(leq(c, c));
                }
                best = j;
            } else {
                proof {
                    assert(!outranks(points@, ids@, c as int, b as int));
                    assert(leq(b, c));
                }
            }
            j = j + 1;
        }
        let ghost before_rest = rest@;
        let ghost before_order = order@;
        let next = rest.remove(best);
        proof {
            vstd::seq_lib::to_multiset_remove(before_rest, best as int);
            vstd::seq_lib::to_multiset_contains(before_rest, next);
            assert(before_rest.contains(next));
            assert(before_rest.to_multiset().contains(next));
            assert forall|y: int| 0 <= y < rest@.len() implies #[trigger] rest@[y] < n by {
                let yy = if y < best { y } else { y + 1 };
                assert(rest@[y] == before_rest[yy]);
            }
        }
        order.push(next);
        proof {
            vstd::seq_lib::to_multiset_build(before_order, next);
            assert(order@.to_multiset().add(rest@.to_multiset()) =~= before_order.to_multiset().add(
                before_rest.to_multiset(),
            ));
            assert forall|x: int, y: int| 0 <= x < y < order@.len() implies #[trigger] leq(
                order@[x],
                order@[y],
            ) by {
                if y == order@.len() - 1 {
                    assert(leq(before_order[x], before_rest[best as int]));
                } else {
                    assert(leq(before_order[x], before_order[y]));
                }
            }
            assert forall|x: int, y: int| 0 <= x < order@.len() && 0 <= y < rest@.len() implies leq(
                #[trigger] order@[x],
                #[trigger] rest@[y],
            ) by {
                let yy = if y < best { y } else { y + 1 };
                assert(rest@[y] == before_rest[yy]);
                if x < order@.len() - 1 {
                    assert(order@[x] == before_order[x]);
                } else {
                    assert(leq(before_rest[best as int], before_rest[yy]));
                }
            }
        }
    }
    proof {
        assert(rest@ =~= Seq::<usize>::empty());
        assert(order@.to_multiset() =~= all.to_multiset());
    }
    order
}

/// Every entry of a listing of the candidates names one of them.
proof fn lemma_order_in_range(order: Seq<usize>, n: nat, a: int)
    requires
        order.to_multiset() == index_range(n).to_multiset(),
        0 <= a < order.len(),
    ensures
        order[a] < n,
{
    broadcast use vstd::seq_lib::group_to_multiset_ensures;

    assert(order.contains(order[a]));
    assert(order.to_multiset().count(order[a]) > 0);
    assert(index_range(n).contains(order[a]));
}

/// The topics that the members' rankings elect, best first. `member_topics` holds, for each
/// member, that member's scored topics in the shared topic order; members whose lists name
/// different topics, or name them in another order, make the election fail.
pub fn elected_topics(member_topics: &Vec<Vec<UserTopic>>) -> (r: Result<Vec<UserTopic>, ElectionError>)
    requires
        member_topics@.len() > 0 ==> member_topics@.len() * member_topics@[0]@.len() <= u32::MAX,
    ensures
        r is Err <==> !same_topics(member_topics@),
        r is Err ==> r == Err::<Vec<UserTopic>, ElectionError>(ElectionError::TopicListMismatch),
        r matches Ok(ws) ==> is_winner_list(member_topics@, ws@),
{
    let m = member_topics.len();
    if m == 0 {
        return Ok(Vec::new());
    }
    let first = &member_topics[0];
    let k = first.len();
    let mut ids: Vec<u32> = Vec::new();
    let mut j: usize = 0;
    while j < k
        invariant
            k == first@.len(),
            j <= k,
            ids@ == topic_ids(first@).take(j as int),
        decreases k - j,
    {
        ids.push(first[j].id);
        proof {
            assert(ids@ =~= topic_ids(first@).take(j as int + 1));
        }
        j = j + 1;
    }
    proof {
        assert(ids@ =~= topic_ids(first@));
    }
    let mut v: usize = 1;
    while v < m
        invariant
            m == member_topics@.len(),
            first == member_topics@[0],
            k == first@.len(),
            ids@ == topic_ids(first@),
            1 <= v <= m,
            forall|w: int| 0 <= w < v ==> #[trigger] topic_ids(member_topics@[w]@) == topic_ids(
                first@,
            ),
        decreases m - v,
    {
        let list = &member_topics[v];
        if list.len() != k {
            proof {
                assert(topic_ids(list@).len() != topic_ids(first@).len());
                assert(topic_ids(member_topics@[v as int]@) != topic_ids(member_topics@[0]@));
            }
            return Err(ElectionError::TopicListMismatch);
        }
        let mut x: usize = 0;
        while x < k
            invariant
                m == member_topics@.len(),
                v < m,
                list == member_topics@[v as int],
                first == member_topics@[0],
                k == first@.len(),
                k == list@.len(),
                ids@ == topic_ids(first@),
                x <= k,
                forall|y: int| 0 <= y < x ==> list@[y].id == #[trigger] ids@[y],
            decreases k - x,
        {
            if list[x].id != ids[x] {
                proof {
                    assert(topic_ids(list@)[x as int] != topic_ids(first@)[x as int]);
                    assert(topic_ids(member_topics@[v as int]@) != topic_ids(member_topics@[0]@));
                }
                return Err(ElectionError::TopicListMismatch);
            }
            x = x + 1;
        }
        proof {
            assert(topic_ids(list@) =~= topic_ids(first@));
        }
        v = v + 1;
    }
    let ghost bs = ballots(member_topics@);
    let mut rankings: Vec<Ranking> = Vec::new();
    v = 0;
    while v < m
        invariant
            m == member_topics@.len(),
            bs == ballots(member_topics@),
            v <= m,
            scores_of(rankings@) == bs.take(v as int),
        decreases m - v,
    {
        let list = &member_topics[v];
        let mut scores: Vec<usize> = Vec::new();
        let mut x: usize = 0;
        while x < list.len()
            invariant
                x <= list@.len(),
                scores@ == topic_scores(list@).take(x as int),
            decreases list@.len() - x,
        {
            scores.push(list[x].score as usize);
            proof {
                assert(scores@ =~= topic_scores(list@).take(x as int + 1));
            }
            x = x + 1;
        }
        proof {
            assert(scores@ =~= topic_scores(list@));
        }
        let ghost before = rankings@;
        rankings.push(Ranking { scores });
        proof {
            assert(bs[v as int] == topic_scores(list@));
            assert(scores_of(rankings@) =~= scores_of(before).push(scores@));
            assert(bs.take(v as int + 1) =~= bs.take(v as int).push(bs[v as int]));
            assert(scores_of(rankings@) =~= bs.take(v as int + 1));
        }
        v = v + 1;
    }
    proof {
        assert(bs.take(m as int) =~= bs);
        assert(topic_scores(first@).len() == k);
        assert(u32::MAX <= usize::MAX);
        assert(scores_of(rankings@)[0] == rankings@[0].scores@);
        assert(rankings@[0].scores@.len() == k);
        assert(rankings@.len() == m);
    }
    let points = match borda_count(&rankings) {
        Ok(points) => points,
        Err(_) => {
            proof {
                assert forall|w: int| 0 <= w < bs.len() implies #[trigger] bs[w].len() == bs[0].len() by {
                    assert(topic_ids(member_topics@[w]@) == topic_ids(first@));
                    assert(topic_ids(member_topics@[w]@).len() == member_topics@[w]@.len());
                }
                assert(false);
            }
            return Err(ElectionError::TopicListMismatch);
        },
    };
    proof {
        assert forall|w: int| 0 <= w < bs.len() implies #[trigger] bs[w].len() == k by {
            assert(topic_ids(member_topics@[w]@) == topic_ids(first@));
            assert(topic_ids(member_topics@[w]@).len() == member_topics@[w]@.len());
        }
        assert(aggregate(bs).len() == k);
    }
    let order = order_candidates(&points, &ids);
    proof {
        broadcast use vstd::seq_lib::group_to_multiset_ensures;

        assert(order@.to_multiset().len() == index_range(k as nat).to_multiset().len());
    }
    let count: usize = if k < N_MEETING_TOPIC_WINNERS {
        k
    } else {
        N_MEETING_TOPIC_WINNERS
    };
    let mut winners: Vec<UserTopic> = Vec::new();
    let mut a: usize = 0;
    while a < count
        invariant
            m == member_topics@.len(),
            first == member_topics@[0],
            k == first@.len(),
            bs == ballots(member_topics@),
            forall|w: int| 0 <= w < bs.len() ==> #[trigger] bs[w].len() == k,
            m * k <= u32::MAX,
            ids@ == topic_ids(first@),
            points@ == aggregate(bs),
            points@.len() == k,
            forall|j: int| 0 <= j < k ==> #[trigger] points@[j] == crate::cull::total_points(bs, j),
            is_candidate_order(points@, ids@, order@),
            order@.len() == k,
            count <= k,
            count == n_winners(k as nat),
            a <= count,
            winners@.len() == a,
            forall|b: int|
                0 <= b < a ==> {
                    &&& (#[trigger] winners@[b]).id == ids@[order@[b] as int]
                    &&& winners@[b].score as usize == points@[order@[b] as int]
                    &&& winners@[b].text@ == first@[order@[b] as int].text@
                },
        decreases count - a,
    {
        let c = order[a];
        proof {
            lemma_order_in_range(order@, k as nat, a as int);
            lemma_total_points_bound(bs, c as int, k as int);
            assert(m * (k - 1) <= m * k) by (nonlinear_arith)
                requires
                    k >= 1,
            ;
        }
        winners.push(UserTopic { text: first[c].text.clone(), score: points[c] as u32, id: ids[c] });
        a = a + 1;
    }
    proof {
        assert(is_candidate_order(aggregate(bs), topic_ids(first@), order@));
    }
    Ok(winners)
}

/// Where a cohort's election stands.
#[derive(Clone, Copy, Debug, PartialEq, Eq, Structural)]
pub enum ElectionStatus {
    /// The participant's cohort could not be found; ask again later.
    NoCohort,
    /// Some member of the cohort has not voted yet.
    VotingOpen,
    /// Everyone voted, but the members who voted are not the cohort's members.
    ConsistencyError,
    /// Everyone voted: the winners and the link can be computed.
    Finished,
}

impl ElectionStatus {
    /// The status text reported for this state.
    pub open spec fn message(self) -> Seq<char> {
        match self {
            ElectionStatus::NoCohort => "Empty cohort for user"@,
            ElectionStatus::VotingOpen => "Cohort voting not finished"@,
            ElectionStatus::ConsistencyError => "Unexpected cohort email mismatch"@,
            ElectionStatus::Finished => "Vote finished"@,
        }
    }

    pub fn text(&self) -> (r: String)
        ensures
            r@ == self.message(),
    {
        match self {
            ElectionStatus::NoCohort => "Empty cohort for user".to_owned(),
            ElectionStatus::VotingOpen => "Cohort voting not finished".to_owned(),
            ElectionStatus::ConsistencyError => "Unexpected cohort email mismatch".to_owned(),
            ElectionStatus::Finished => "Vote finished".to_owned(),
        }
    }
}

/// Every vote flag is set.
pub open spec fn all_voted(flags: Seq<(String, bool)>) -> bool {
    forall|i: int| 0 <= i < flags.len() ==> (#[trigger] flags[i]).1
}

/// The participants that the vote flags belong to.
pub open spec fn flag_names(flags: Seq<(String, bool)>) -> Seq<Seq<char>> {
    flags.map_values(|f: (String, bool)| f.0@)
}

/// The members of a resolved cohort, if any.
pub open spec fn cohort_view(cohort: Option<Vec<String>>) -> Option<Seq<Seq<char>>> {
    match cohort {
        Some(c) => Some(name_views(c@)),
        None => None,
    }
}

/// The state of the election, from the participant's cohort (none if it could not be resolved)
/// and the vote flags of the meeting's attendees who belong to that cohort.
pub open spec fn status_of(cohort: Option<Seq<Seq<char>>>, flags: Seq<(String, bool)>) -> ElectionStatus {
    match cohort {
        None => ElectionStatus::NoCohort,
        Some(c) => if flags.len() != c.len() || !all_voted(flags) {
            ElectionStatus::VotingOpen
        } else if flag_names(flags).to_multiset() != c.to_multiset() {
            ElectionStatus::ConsistencyError
        } else {
            ElectionStatus::Finished
        },
    }
}

fn copy_names(names: &Vec<String>) -> (r: Vec<String>)
    ensures
        name_views(r@) == name_views(names@),
{
    let mut r: Vec<String> = Vec::new();
    let mut i: usize = 0;
    while i < names.len()
        invariant
            i <= names@.len(),
            name_views(r@) == name_views(names@).take(i as int),
        decreases names@.len() - i,
    {
        let copy = names[i].clone();
        let ghost before = r@;
        r.push(copy);
        proof {
            assert(name_views(r@) =~= name_views(before).push(copy@));
            assert(name_views(r@) =~= name_views(names@).take(i as int + 1));
        }
        i = i + 1;
    }
    proof {
        assert(name_views(names@).take(names@.len() as int) =~= name_views(names@));
    }
    r
}

/// Whether `a` and `b` hold the same identifiers, each as often.
pub fn same_members(a: &Vec<String>, b: &Vec<String>) -> (r: bool)
    ensures
        r == (name_views(a@).to_multiset() == name_views(b@).to_multiset()),
{
    broadcast use vstd::seq_lib::group_to_multiset_ensures;

    let sa = sort_names(copy_names(a));
    let sb = sort_names(copy_names(b));
    let ghost va = name_views(sa@);
    let ghost vb = name_views(sb@);
    proof {
        assert(name_views(a@).to_multiset() == name_views(b@).to_multiset() ==> va == vb) by {
            if name_views(a@).to_multiset() == name_views(b@).to_multiset() {
                lemma_sorted_listing_unique(name_views(a@), va, vb);
            }
        }
        assert(va.to_multiset().len() == va.len());
        assert(vb.to_multiset().len() == vb.len());
    }
    if sa.len() != sb.len() {
        return false;
    }
    let mut i: usize = 0;
    while i < sa.len()
        invariant
            va == name_views(sa@),
            vb == name_views(sb@),
            name_views(a@).to_multiset() == name_views(b@).to_multiset() ==> va == vb,
            sa@.len() == sb@.len(),
            i <= sa@.len(),
            forall|j: int| 0 <= j < i ==> #[trigger] va[j] == vb[j],
        decreases sa@.len() - i,
    {
        if !(sa[i] == sb[i]) {
            proof {
                assert(va[i as int] != vb[i as int]);
                assert(va != vb);
            }
            return false;
        }
        i = i + 1;
    }
    proof {
        assert(va =~= vb);
    }
    true
}

/// The state of the election for a participant whose cohort is `cohort` (none if it could not
/// be resolved), given the vote flags of the meeting's attendees who belong to that cohort.
pub fn voting_status(cohort: &Option<Vec<String>>, flags: &Vec<(String, bool)>) -> (s: ElectionStatus)
    ensures
        s == status_of(cohort_view(*cohort), flags@),
{
    match cohort {
        None => ElectionStatus::NoCohort,
        Some(c) => {
            if flags.len() != c.len() {
                return ElectionStatus::VotingOpen;
            }
            let mut names: Vec<String> = Vec::new();
            let mut i: usize = 0;
            while i < flags.len()
                invariant
                    cohort_view(*cohort) == Some(name_views(c@)),
                    flags@.len() == c@.len(),
                    i <= flags@.len(),
                    name_views(names@) == flag_names(flags@).take(i as int),
                    forall|j: int| 0 <= j < i ==> (#[trigger] flags@[j]).1,
                decreases flags@.len() - i,
            {
                if !flags[i].1 {
                    proof {
                        assert(!flags@[i as int].1);
                        assert(!all_voted(flags@));
                    }
                    return ElectionStatus::VotingOpen;
                }
                let copy = flags[i].0.clone();
                let ghost before = names@;
                names.push(copy);
                proof {
                    assert(name_views(names@) =~= name_views(before).push(copy@));
                    assert(name_views(names@) =~= flag_names(flags@).take(i as int + 1));
                }
                i = i + 1;
            }
            proof {
                assert(flag_names(flags@).take(flags@.len() as int) =~= flag_names(flags@));
            }
            if same_members(&names, c) {
                ElectionStatus::Finished
            } else {
                ElectionStatus::ConsistencyError
            }
        },
    }
}

/// `res` reports an election that is not finished, in state `status`: no winners, no members
/// and no link.
pub open spec fn is_unfinished_result(
    res: ElectionResults,
    meeting_id: u32,
    meeting_name: Seq<char>,
    status: ElectionStatus,
) -> bool {
    &&& res.meeting_id == meeting_id
    &&& res.meeting_name@ == meeting_name
    &&& res.topics is None
    &&& res.users is None
    &&& res.meeting_url@.len() == 0
    &&& res.status@ == status.message()
}

/// `res` reports the finished election of `cohort` in the given meeting: the topics that the
/// members' rankings elect, the members in lexicographic order, and the link derived from them.
pub open spec fn is_finished_result(
    res: ElectionResults,
    meeting_id: u32,
    meeting_name: Seq<char>,
    cohort: Seq<Seq<char>>,
    member_topics: Seq<Vec<UserTopic>>,
) -> bool {
    &&& res.meeting_id == meeting_id
    &&& res.meeting_name@ == meeting_name
    &&& res.status@ == ElectionStatus::Finished.message()
    &&& match (res.topics, res.users) {
        (Some(ws), Some(us)) => {
            &&& is_winner_list(member_topics, ws@)
            &&& is_sorted_listing(cohort, name_views(us@))
            &&& res.meeting_url@ == meeting_link(
                meeting_id,
                meeting_name,
                topic_views(ws@),
                name_views(us@),
            )
        },
        _ => false,
    }
}

/// The election result shown to a participant of the meeting, computed afresh from the
/// participant's cohort (none if it could not be resolved), the vote flags of the meeting's
/// attendees who belong to it, and each member's scored topics (only read once everyone voted).
pub fn election_result(
    meeting_id: u32,
    meeting_name: String,
    cohort: Option<Vec<String>>,
    flags: &Vec<(String, bool)>,
    member_topics: &Vec<Vec<UserTopic>>,
) -> (r: Result<ElectionResults, ElectionError>)
    requires
        member_topics@.len() > 0 ==> member_topics@.len() * member_topics@[0]@.len() <= u32::MAX,
    ensures
        ({
            let status = status_of(cohort_view(cohort), flags@);
            &&& status != ElectionStatus::Finished ==> (r matches Ok(res) && is_unfinished_result(
                res,
                meeting_id,
                meeting_name@,
                status,
            ))
            &&& status == ElectionStatus::Finished ==> (r is Err <==> !same_topics(member_topics@))
            &&& r is Err ==> r == Err::<ElectionResults, ElectionError>(
                ElectionError::TopicListMismatch,
            )
            &&& status == ElectionStatus::Finished ==> (r matches Ok(res) ==> is_finished_result(
                res,
                meeting_id,
                meeting_name@,
                name_views(cohort->0@),
                member_topics@,
            ))
        }),
        cohort is Some && (exists|i: int| 0 <= i < flags@.len() && !(#[trigger] flags@[i]).1) ==> (
        r matches Ok(res) && res.status@ == "Cohort voting not finished"@ && res.topics is None
            && res.users is None && res.meeting_url@.len() == 0),
{
    let status = voting_status(&cohort, flags);
    match (status, cohort) {
        (ElectionStatus::Finished, Some(members)) => {
            let winners = match elected_topics(member_topics) {
                Ok(winners) => winners,
                Err(e) => {
                    return Err(e);
                },
            };
            let users = sort_names(members);
            let meeting_url = meeting_url(meeting_id, meeting_name.as_str(), &winners, &users);
            Ok(
                ElectionResults {
                    meeting_id,
                    meeting_name,
                    topics: Some(winners),
                    users: Some(users),
                    meeting_url,
                    status: status.text(),
                },
            )
        },
        _ => {
            let text = status.text();
            Ok(
                ElectionResults {
                    meeting_id,
                    meeting_name,
                    topics: None,
                    users: None,
                    meeting_url: String::new(),
                    status: text,
                },
            )
        },
    }
}

/// The election results from the same meeting and the same topic rankings, for cohorts that
/// list the same members in any order, agree once finished: same members, same winners and
/// byte for byte the same link.
pub proof fn lemma_finished_link_stable(
    meeting_id: u32,
    meeting_name: Seq<char>,
    cohort1: Seq<Seq<char>>,
    cohort2: Seq<Seq<char>>,
    member_topics: Seq<Vec<UserTopic>>,
    r1: ElectionResults,
    r2: ElectionResults,
)
    requires
        cohort1.to_multiset() == cohort2.to_multiset(),
        is_finished_result(r1, meeting_id, meeting_name, cohort1, member_topics),
        is_finished_result(r2, meeting_id, meeting_name, cohort2, member_topics),
    ensures
        r1.meeting_url@ == r2.meeting_url@,
        name_views(r1.users->0@) == name_views(r2.users->0@),
        topic_views(r1.topics->0@) == topic_views(r2.topics->0@),
{
    let u1 = name_views(r1.users->0@);
    let u2 = name_views(r2.users->0@);
    lemma_sorted_listing_unique(cohort1, u1, u2);
    let w1 = r1.topics->0@;
    let w2 = r2.topics->0@;
    if member_topics.len() > 0 {
        let first = member_topics[0]@;
        let points = aggregate(ballots(member_topics));
        let ids = topic_ids(first);
        let o1 = choose|o: Seq<usize>|
            #[trigger] is_candidate_order(points, ids, o) && w1.len() == n_winners(first.len())
                && forall|a: int|
                0 <= a < w1.len() ==> {
                    &&& (#[trigger] w1[a]).id == ids[o[a] as int]
                    &&& w1[a].score as usize == points[o[a] as int]
                    &&& w1[a].text@ == first[o[a] as int].text@
                };
        let o2 = choose|o: Seq<usize>|
            #[trigger] is_candidate_order(points, ids, o) && w2.len() == n_winners(first.len())
                && forall|a: int|
                0 <= a < w2.len() ==> {
                    &&& (#[trigger] w2[a]).id == ids[o[a] as int]
                    &&& w2[a].score as usize == points[o[a] as int]
                    &&& w2[a].text@ == first[o[a] as int].text@
                };
        lemma_candidate_order_unique(points, ids, o1, o2);
        assert forall|a: int| 0 <= a < w1.len() implies #[trigger] topic_views(w1)[a] == topic_views(
            w2,
        )[a] by {
            assert(w1[a].id == w2[a].id);
            assert(w1[a].score as usize == w2[a].score as usize);
        }
    }
    assert(topic_views(w1) =~= topic_views(w2));
}

} // verus!
