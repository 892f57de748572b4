//! Random partition of a meeting's participants into cohorts.
use rand::seq::SliceRandom;
use vstd::prelude::*;

use crate::InputError;

verus! {

/// How many participants a cohort has (the last cohort of a meeting may have fewer).
pub const COHORT_QUORUM: usize = 3;

/// The indices `0, 1, ..., n - 1` in ascending order.
pub open spec fn index_range(n: nat) -> Seq<usize> {
    Seq::new(n, |i: int| i as usize)
}

/// The contents of each group.
pub open spec fn group_views(groups: Seq<Vec<usize>>) -> Seq<Seq<usize>> {
    groups.map_values(|g: Vec<usize>| g@)
}

/// `groups` is `order` cut into consecutive pieces of `k` entries, the last piece holding
/// what is left.
pub open spec fn is_chunking(order: Seq<usize>, k: int, groups: Seq<Seq<usize>>) -> bool {
    &&& groups.len() == (order.len() + k - 1) / k
    &&& forall|g: int|
        0 <= g < groups.len() ==> #[trigger] groups[g] == order.subrange(
            g * k,
            if (g + 1) * k <= order.len() {
                (g + 1) * k
            } else {
                order.len() as int
            },
        )
}

/// `groups` partitions the indices below `n` into groups of `k`: every index occurs in exactly
/// one group and exactly once, and every group but the last has `k` members, the last one
/// the `n - k * (groups.len() - 1)` that remain.
pub open spec fn is_partition(n: nat, k: int, groups: Seq<Seq<usize>>) -> bool {
    &&& groups.len() == (n + k - 1) / k
    &&& forall|g: int| 0 <= g < groups.len() - 1 ==> (#[trigger] groups[g]).len() == k
    &&& groups.len() > 0 ==> groups.last().len() == n - k * (groups.len() - 1)
    &&& groups.flatten_alt().len() == n
    &&& groups.flatten_alt().to_multiset() == index_range(n).to_multiset()
}

/// Relies on rand's `SliceRandom::shuffle` with the thread-local generator: the entries are
/// permuted in place, in an order that is left to chance.
#[verifier::external_body]
fn shuffle(order: &mut Vec<usize>)
    ensures
        final(order)@.to_multiset() == old(order)@.to_multiset(),
{
    order.shuffle(&mut rand::thread_rng());
}

/// Cuts `order` into consecutive groups of `cohort_size`; the last group holds the rest.
pub fn split_into_cohorts(order: &Vec<usize>, cohort_size: usize) -> (groups: Vec<Vec<usize>>)
    requires
        cohort_size > 0,
    ensures
        is_chunking(order@, cohort_size as int, group_views(groups@)),
        group_views(groups@).flatten_alt() == order@,
        groups@.len() * cohort_size >= order@.len(),
        groups@.len() > 0 ==> (groups@.len() - 1) * cohort_size < order@.len(),
{
    let n = order.len();
    let k = cohort_size;
    let mut groups: Vec<Vec<usize>> = Vec::new();
    let mut start: usize = 0;
    assert(groups@.len() * k == 0);
    while start < n
        invariant
            n == order@.len(),
            k > 0,
            start <= n,
            start == n || start == groups@.len() * k,
            start < n ==> start == groups@.len() * k,
            groups@.len() > 0 ==> (groups@.len() - 1) * k < n,
            start == n ==> groups@.len() * k >= n,
            group_views(groups@).flatten_alt() == order@.take(start as int),
            forall|g: int|
                0 <= g < groups@.len() ==> #[trigger] groups@[g]@ == order@.subrange(
                    g * k,
                    if (g + 1) * k <= n {
                        (g + 1) * k
                    } else {
                        n as int
                    },
                ),
        decreases n - start,
    {
        let end: usize = if n - start > k {
            start + k
        } else {
            n
        };
        let mut group: Vec<usize> = Vec::new();
        let mut i: usize = start;
        while i < end
            invariant
                n == order@.len(),
                start <= i <= end <= n,
                group@ == order@.subrange(start as int, i as int),
            decreases end - i,
        {
            group.push(order[i]);
            i = i + 1;
        }
        let ghost before = groups@;
        proof {
            let g = groups@.len() as int;
            assert(start == g * k);
            assert((g + 1) * k == g * k + k) by (nonlinear_arith);
        }
        groups.push(group);
        proof {
            let gv = group_views(groups@);
            assert(gv.drop_last() =~= group_views(before));
            assert(order@.take(end as int) =~= order@.take(start as int) + group@);
            assert(gv.last() == group@);
            let g = before.len() as int;
            assert((g + 1) * k == g * k + k) by (nonlinear_arith);
            assert forall|h: int| 0 <= h < groups@.len() implies #[trigger] groups@[h]@
                == order@.subrange(
                h * k,
                if (h + 1) * k <= n {
                    (h + 1) * k
                } else {
                    n as int
                },
            ) by {
                if h < g {
                    assert(groups@[h] == before[h]);
                }
            }
        }
        start = end;
    }
    proof {
        let len = groups@.len() as int;
        let kk = k as int;
        let nn = n as int;
        if len > 0 {
            assert((nn + kk - 1) / kk == len) by (nonlinear_arith)
                requires
                    (len - 1) * kk < nn,
                    len * kk >= nn,
                    kk > 0,
            ;
        } else {
            assert(nn == 0);
            assert((nn + kk - 1) / kk == 0) by (nonlinear_arith)
                requires
                    nn == 0,
                    kk > 0,
            ;
        }
        assert(order@.take(n as int) =~= order@);
        let gv = group_views(groups@);
        assert forall|h: int| 0 <= h < gv.len() implies #[trigger] gv[h] == order@.subrange(
            h * kk,
            if (h + 1) * kk <= nn {
                (h + 1) * kk
            } else {
                nn
            },
        ) by {
            assert(gv[h] == groups@[h]@);
        }
    }
    groups
}

/// Randomly partitions the indices `0..n_participants` into cohorts of `cohort_size`: a
/// uniformly shuffled order of the indices, cut into consecutive groups, the last of which
/// may be smaller. Fails when there are fewer participants than one cohort needs.
pub fn cohorts(n_participants: usize, cohort_size: usize) -> (r: Result<Vec<Vec<usize>>, InputError>)
    requires
        cohort_size > 0,
    ensures
        r is Err <==> cohort_size > n_participants,
        r is Err ==> r == Err::<Vec<Vec<usize>>, InputError>(InputError::InsufficientParticipants),
        r matches Ok(groups) ==> is_partition(
            n_participants as nat,
            cohort_size as int,
            group_views(groups@),
        ),
{
    if cohort_size > n_participants {
        return Err(InputError::InsufficientParticipants);
    }
    let mut order: Vec<usize> = Vec::new();
    let mut i: usize = 0;
    while i < n_participants
        invariant
            i <= n_participants,
            order@ == index_range(i as nat),
        decreases n_participants - i,
    {
        order.push(i);
        proof {
            assert(order@ =~= index_range((i + 1) as nat));
        }
        i = i + 1;
    }
    let ghost ordered = order@;
    shuffle(&mut order);
    let groups = split_into_cohorts(&order, cohort_size);
    proof {
        broadcast use vstd::seq_lib::group_to_multiset_ensures;

        let n = n_participants as int;
        let k = cohort_size as int;
        let gv = group_views(groups@);
        let len = gv.len() as int;
        assert(order@.len() == ordered.len()) by {
            assert(order@.to_multiset().len() == ordered.to_multiset().len());
        }
        assert forall|g: int| 0 <= g < gv.len() - 1 implies (#[trigger] gv[g]).len() == k by {
            assert((g + 1) * k <= (len - 1) * k) by (nonlinear_arith)
                requires
                    g + 1 <= len - 1,
                    k > 0,
            ;
            assert((g + 1) * k == g * k + k) by (nonlinear_arith);
        }
        if len > 0 {
            assert(gv.last() == gv[len - 1]);
        }
    }
    Ok(groups)
}

/// A cohort's index and one of its members, as stored for a meeting.
#[derive(Clone, Debug)]
pub struct CohortMembership {
    pub cohort: usize,
    pub participant: String,
}

/// The cohort index and characters of each stored membership.
pub open spec fn membership_views(rows: Seq<CohortMembership>) -> Seq<(usize, Seq<char>)> {
    rows.map_values(|r: CohortMembership| (r.cohort, r.participant@))
}

/// The memberships of `groups`, group by group and in each group in order: the group's index
/// with the participant that each of its entries indexes in `attendees`.
pub open spec fn memberships(attendees: Seq<Seq<char>>, groups: Seq<Seq<usize>>) -> Seq<(usize, Seq<char>)>
    decreases groups.len(),
{
    if groups.len() == 0 {
        Seq::empty()
    } else {
        memberships(attendees, groups.drop_last()) + groups.last().map_values(
            |i: usize| ((groups.len() - 1) as usize, attendees[i as int]),
        )
    }
}

/// The characters of each participant.
pub open spec fn participant_views(attendees: Seq<String>) -> Seq<Seq<char>> {
    attendees.map_values(|s: String| s@)
}

/// Every entry of a group also stands in the groups' concatenation.
proof fn lemma_group_entry_in_flatten(groups: Seq<Seq<usize>>, g: int, x: int)
    requires
        0 <= g < groups.len(),
        0 <= x < groups[g].len(),
    ensures
        groups.flatten_alt().contains(groups[g][x]),
    decreases groups.len(),
{
    let front = groups.drop_last();
    if g < groups.len() - 1 {
        assert(front[g] == groups[g]);
        lemma_group_entry_in_flatten(front, g, x);
        let k = choose|k: int| 0 <= k < front.flatten_alt().len() && front.flatten_alt()[k] == groups[g][x];
        assert(groups.flatten_alt()[k] == groups[g][x]);
    } else {
        assert(groups.flatten_alt()[front.flatten_alt().len() + x] == groups[g][x]);
    }
}

/// The stored memberships of `groups`, whose entries index `attendees`.
pub fn membership_rows(attendees: &Vec<String>, groups: &Vec<Vec<usize>>) -> (rows: Vec<CohortMembership>)
    requires
        forall|g: int, x: int|
            0 <= g < groups@.len() && 0 <= x < groups@[g]@.len() ==> #[trigger] groups@[g]@[x]
                < attendees@.len(),
    ensures
        membership_views(rows@) == memberships(participant_views(attendees@), group_views(groups@)),
{
    let ghost ps = participant_views(attendees@);
    let ghost gs = group_views(groups@);
    let mut rows: Vec<CohortMembership> = Vec::new();
    let mut g: usize = 0;
    while g < groups.len()
        invariant
            ps == participant_views(attendees@),
            gs == group_views(groups@),
            g <= groups@.len(),
            forall|h: int, x: int|
                0 <= h < groups@.len() && 0 <= x < groups@[h]@.len() ==> #[trigger] groups@[h]@[x]
                    < attendees@.len(),
            membership_views(rows@) == memberships(ps, gs.take(g as int)),
        decreases groups@.len() - g,
    {
        let group = &groups[g];
        let ghost head = membership_views(rows@);
        let ghost tail = gs[g as int].map_values(|i: usize| (g, ps[i as int]));
        let mut x: usize = 0;
        while x < group.len()
            invariant
                ps == participant_views(attendees@),
                gs == group_views(groups@),
                g < groups@.len(),
                group == groups@[g as int],
                tail == gs[g as int].map_values(|i: usize| (g, ps[i as int])),
                x <= group@.len(),
                forall|h: int, y: int|
                    0 <= h < groups@.len() && 0 <= y < groups@[h]@.len() ==> #[trigger] groups@[h]@[y]
                        < attendees@.len(),
                membership_views(rows@) == head + tail.take(x as int),
            decreases group@.len() - x,
        {
            let i = group[x];
            proof {
                assert(groups@[g as int]@[x as int] < attendees@.len());
            }
            let ghost before = rows@;
            rows.push(CohortMembership { cohort: g, participant: attendees[i].clone() });
            proof {
                assert(membership_views(rows@) =~= membership_views(before).push((g, ps[i as int])));
                assert(tail.take(x as int + 1) =~= tail.take(x as int).push(tail[x as int]));
            }
            x = x + 1;
        }
        proof {
            assert(tail.take(group@.len() as int) =~= tail);
            assert(gs.take(g as int + 1).drop_last() =~= gs.take(g as int));
            assert(gs.take(g as int + 1).last() == gs[g as int]);
        }
        g = g + 1;
    }
    proof {
        assert(gs.take(groups@.len() as int) =~= gs);
    }
    rows
}

/// Splits `attendees` into randomly composed cohorts of `cohort_size` (the last one possibly
/// smaller) and lists the memberships to store. Fails when there are fewer attendees than one
/// cohort needs.
pub fn form_cohorts(attendees: &Vec<String>, cohort_size: usize) -> (r: Result<Vec<CohortMembership>, InputError>)
    requires
        cohort_size > 0,
    ensures
        r is Err <==> cohort_size > attendees@.len(),
        r is Err ==> r == Err::<Vec<CohortMembership>, InputError>(InputError::InsufficientParticipants),
        r matches Ok(rows) ==> exists|groups: Seq<Seq<usize>>|
            #[trigger] is_partition(attendees@.len(), cohort_size as int, groups)
                && membership_views(rows@) == memberships(participant_views(attendees@), groups),
{
    let groups = match cohorts(attendees.len(), cohort_size) {
        Ok(groups) => groups,
        Err(e) => {
            return Err(e);
        },
    };
    let ghost gs = group_views(groups@);
    proof {
        broadcast use vstd::seq_lib::group_to_multiset_ensures;

        assert forall|g: int, x: int|
            0 <= g < groups@.len() && 0 <= x < groups@[g]@.len() implies #[trigger] groups@[g]@[x]
            < attendees@.len() by {
            assert(gs[g] == groups@[g]@);
            lemma_group_entry_in_flatten(gs, g, x);
            let v = groups@[g]@[x];
            assert(gs.flatten_alt().to_multiset().count(v) > 0);
            assert(index_range(attendees@.len()).to_multiset().count(v) > 0);
            assert(index_range(attendees@.len()).contains(v));
        }
    }
    let rows = membership_rows(attendees, &groups);
    proof {
        assert(is_partition(attendees@.len(), cohort_size as int, gs));
    }
    Ok(rows)
}

/// The memberships to store when a meeting starts. Only the caller whose claim created the
/// meeting's cohort group (`created`) partitions the attendees into cohorts of
/// `COHORT_QUORUM`; every other caller stores nothing.
pub fn start_meeting(created: bool, attendees: &Vec<String>) -> (r: Result<
    Vec<CohortMembership>,
    InputError,
>)
    ensures
        !created ==> (r matches Ok(rows) && rows@.len() == 0),
        created ==> (r is Err <==> COHORT_QUORUM > attendees@.len()),
        r is Err ==> r == Err::<Vec<CohortMembership>, InputError>(InputError::InsufficientParticipants),
        created ==> (r matches Ok(rows) ==> exists|groups: Seq<Seq<usize>>|
            #[trigger] is_partition(attendees@.len(), COHORT_QUORUM as int, groups)
                && membership_views(rows@) == memberships(participant_views(attendees@), groups)),
{
    if created {
        form_cohorts(attendees, COHORT_QUORUM)
    } else {
        Ok(Vec::new())
    }
}

} // verus!
