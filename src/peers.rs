//! Resolving a participant's cohort while the store may not yet show a fresh partition.
//!
//! The store work and the waiting happen outside; this module decides, from what each store
//! call returned, what to do next.
use rand::Rng;
use vstd::prelude::*;

verus! {

/// How many times the membership query is made before giving up.
pub const N_RETRIES: usize = 10;

/// The fixed part of the wait between two membership queries, in milliseconds.
pub const RETRY_SLEEP_MS: u64 = 100;

/// The wait between two membership queries grows by a random amount below this, in
/// milliseconds, so that participants resolving at the same moment spread out.
pub const RETRY_JITTER_MS: u64 = 20;

/// How often to try, and how long to wait in between.
#[derive(Clone, Copy, Debug, PartialEq, Eq, Structural)]
pub struct RetryPolicy {
    pub max_attempts: usize,
    pub base_delay_ms: u64,
    pub jitter_range_ms: u64,
}

impl RetryPolicy {
    /// The waits of this policy fit in a `u64`.
    pub open spec fn wf(self) -> bool {
        self.base_delay_ms + self.jitter_range_ms <= u64::MAX
    }

    /// The policy for resolving cohort peers.
    pub fn for_peers() -> (p: RetryPolicy)
        ensures
            p.wf(),
            p.max_attempts == N_RETRIES,
            p.base_delay_ms == RETRY_SLEEP_MS,
            p.jitter_range_ms == RETRY_JITTER_MS,
    {
        RetryPolicy {
            max_attempts: N_RETRIES,
            base_delay_ms: RETRY_SLEEP_MS,
            jitter_range_ms: RETRY_JITTER_MS,
        }
    }
}

/// What the caller does next while resolving peers.
#[derive(Clone, Debug)]
pub enum ResolveStep {
    /// Ask the store for the members of the participant's cohort.
    QueryPeers,
    /// Wait this many milliseconds, then ask for the members again.
    Sleep(u64),
    /// Resolution is over, with the cohort's members or with none.
    Done(Option<Vec<String>>),
}

/// The state of one resolution of a participant's cohort.
pub struct PeerResolver {
    pub policy: RetryPolicy,
    /// Membership queries answered so far.
    pub attempts: usize,
}

/// Relies on rand's `Rng::gen_range` with the thread-local generator: a value drawn from
/// `0..range`, which must not be empty.
#[verifier::external_body]
fn random_below(range: u64) -> (r: u64)
    requires
        range > 0,
    ensures
        r < range,
{
    rand::thread_rng().gen_range(0..range)
}

impl PeerResolver {
    pub open spec fn wf(&self) -> bool {
        &&& self.policy.wf()
        &&& self.attempts <= self.policy.max_attempts
    }

    /// A resolution that has made no query yet.
    pub fn new(policy: RetryPolicy) -> (r: PeerResolver)
        requires
            policy.wf(),
        ensures
            r.wf(),
            r.policy == policy,
            r.attempts == 0,
    {
        PeerResolver { policy, attempts: 0 }
    }

    /// The first decision, from the number of peers the store associates with the participant.
    /// With none, the cohort has not been formed (or does not hold the participant): the
    /// resolution ends at once with no members and no wait.
    pub fn on_peer_count(&self, count: i64) -> (step: ResolveStep)
        ensures
            count == 0 ==> step matches ResolveStep::Done(None),
            count != 0 ==> step matches ResolveStep::QueryPeers,
    {
        if count == 0 {
            ResolveStep::Done(None)
        } else {
            ResolveStep::QueryPeers
        }
    }

    /// The decision after a membership query answered `members`, with `jitter_ms` as the
    /// random part of a wait. Members found end the resolution with them; an empty answer
    /// ends it with none once the attempts are used up, and otherwise asks for a wait of
    /// the base delay plus the jitter before the next query.
    pub fn on_members_with_jitter(&mut self, members: Vec<String>, jitter_ms: u64) -> (step:
        ResolveStep)
        requires
            old(self).wf(),
            old(self).attempts < old(self).policy.max_attempts,
            jitter_ms <= old(self).policy.jitter_range_ms,
        ensures
            final(self).wf(),
            final(self).policy == old(self).policy,
            final(self).attempts == old(self).attempts + 1,
            members@.len() > 0 ==> (step matches ResolveStep::Done(Some(m)) && m@ == members@),
            members@.len() == 0 && final(self).attempts == final(self).policy.max_attempts
                ==> step matches ResolveStep::Done(None),
            members@.len() == 0 && final(self).attempts < final(self).policy.max_attempts
                ==> step == ResolveStep::Sleep((final(self).policy.base_delay_ms + jitter_ms) as u64),
    {
        self.attempts = self.attempts + 1;
        if members.len() > 0 {
            ResolveStep::Done(Some(members))
        } else if self.attempts == self.policy.max_attempts {
            ResolveStep::Done(None)
        } else {
            ResolveStep::Sleep(self.policy.base_delay_ms + jitter_ms)
        }
    }

    /// The decision after a membership query answered `members`, drawing the random part of
    /// a wait. What follows for each drawn value is that of `on_members_with_jitter`.
    pub fn on_members(&mut self, members: Vec<String>) -> (step: ResolveStep)
        requires
            old(self).wf(),
            old(self).attempts < old(self).policy.max_attempts,
        ensures
            final(self).wf(),
            final(self).policy == old(self).policy,
            final(self).attempts == old(self).attempts + 1,
            members@.len() > 0 ==> (step matches ResolveStep::Done(Some(m)) && m@ == members@),
            members@.len() == 0 && final(self).attempts == final(self).policy.max_attempts
                ==> step matches ResolveStep::Done(None),
            members@.len() == 0 && final(self).attempts < final(self).policy.max_attempts
                ==> (step matches ResolveStep::Sleep(ms) && final(self).policy.base_delay_ms <= ms
                <= final(self).policy.base_delay_ms + final(self).policy.jitter_range_ms),
    {
        let jitter = if self.policy.jitter_range_ms == 0 {
            0
        } else {
            random_below(self.policy.jitter_range_ms)
        };
        self.on_members_with_jitter(members, jitter)
    }
}

} // verus!
