use ehallway::peers::{
    PeerResolver, ResolveStep, RetryPolicy, N_RETRIES, RETRY_JITTER_MS, RETRY_SLEEP_MS,
};

#[test]
fn no_peers_ends_at_once() {
    let resolver = PeerResolver::new(RetryPolicy::for_peers());
    assert!(matches!(resolver.on_peer_count(0), ResolveStep::Done(None)));
    assert_eq!(resolver.attempts, 0);
}

#[test]
fn some_peers_lead_to_a_query() {
    let resolver = PeerResolver::new(RetryPolicy::for_peers());
    assert!(matches!(resolver.on_peer_count(3), ResolveStep::QueryPeers));
    assert!(matches!(resolver.on_peer_count(-1), ResolveStep::QueryPeers));
}

#[test]
fn members_found_end_the_resolution() {
    let mut resolver = PeerResolver::new(RetryPolicy::for_peers());
    let members = vec!["a@x".to_string(), "b@x".to_string()];
    match resolver.on_members(members.clone()) {
        ResolveStep::Done(Some(m)) => assert_eq!(m, members),
        other => panic!("unexpected step {:?}", other),
    }
    assert_eq!(resolver.attempts, 1);
}

#[test]
fn empty_answers_wait_with_jitter_then_give_up() {
    let mut resolver = PeerResolver::new(RetryPolicy::for_peers());
    for attempt in 1..N_RETRIES {
        match resolver.on_members(vec![]) {
            ResolveStep::Sleep(ms) => {
                assert!(ms >= RETRY_SLEEP_MS);
                assert!(ms < RETRY_SLEEP_MS + RETRY_JITTER_MS);
            }
            other => panic!("unexpected step {:?}", other),
        }
        assert_eq!(resolver.attempts, attempt);
    }
    assert!(matches!(resolver.on_members(vec![]), ResolveStep::Done(None)));
    assert_eq!(resolver.attempts, N_RETRIES);
}

#[test]
fn wait_is_base_delay_plus_jitter() {
    let mut resolver = PeerResolver::new(RetryPolicy::for_peers());
    match resolver.on_members_with_jitter(vec![], 7) {
        ResolveStep::Sleep(ms) => assert_eq!(ms, 107),
        other => panic!("unexpected step {:?}", other),
    }
    let policy = RetryPolicy { max_attempts: 1, base_delay_ms: 50, jitter_range_ms: 0 };
    let mut once = PeerResolver::new(policy);
    assert!(matches!(once.on_members_with_jitter(vec![], 0), ResolveStep::Done(None)));
}
