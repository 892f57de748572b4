use ehallway::election::{
    election_result, elected_topics, order_candidates, same_members, voting_status,
    ElectionError, ElectionStatus,
};
use ehallway::link::{link_bytes, link_from_digest, meeting_url};
use ehallway::listing::{name_le, sort_names};
use ehallway::messages::UserTopic;

const PREFIX: &str = "https://meet.jit.si/ehallway/";

fn topic(id: u32, score: u32, text: &str) -> UserTopic {
    UserTopic { text: text.to_string(), score, id }
}

fn names(list: &[&str]) -> Vec<String> {
    list.iter().map(|s| s.to_string()).collect()
}

fn flags(list: &[(&str, bool)]) -> Vec<(String, bool)> {
    list.iter().map(|(s, v)| (s.to_string(), *v)).collect()
}

fn ballots() -> Vec<Vec<UserTopic>> {
    vec![
        vec![topic(11, 0, "rust"), topic(12, 1, "verus"), topic(13, 2, "tea")],
        vec![topic(11, 3, "rust"), topic(12, 5, "verus"), topic(13, 4, "tea")],
        vec![topic(11, 8, "rust"), topic(12, 7, "verus"), topic(13, 6, "tea")],
    ]
}

#[test]
fn winners_are_the_best_by_borda_points() {
    let winners = elected_topics(&ballots()).unwrap();
    // Points: rust 0+0+2, verus 1+2+1, tea 2+1+0.
    assert_eq!(winners.len(), 2);
    assert_eq!((winners[0].id, winners[0].score, winners[0].text.as_str()), (12, 4, "verus"));
    assert_eq!((winners[1].id, winners[1].score, winners[1].text.as_str()), (13, 3, "tea"));
}

#[test]
fn equal_points_go_to_the_smaller_topic_id() {
    let member_topics = vec![
        vec![topic(30, 0, "c"), topic(20, 1, "b"), topic(10, 2, "a")],
        vec![topic(30, 2, "c"), topic(20, 1, "b"), topic(10, 0, "a")],
    ];
    let winners = elected_topics(&member_topics).unwrap();
    let ids: Vec<u32> = winners.iter().map(|t| t.id).collect();
    assert_eq!(ids, [10, 20]);
    assert!(winners.iter().all(|t| t.score == 2));
}

#[test]
fn fewer_topics_than_winners() {
    let member_topics = vec![vec![topic(5, 9, "only")]];
    let winners = elected_topics(&member_topics).unwrap();
    assert_eq!(winners.len(), 1);
    assert_eq!(winners[0].id, 5);
    assert!(elected_topics(&vec![]).unwrap().is_empty());
}

#[test]
fn differing_topic_lists_are_refused() {
    let mut member_topics = ballots();
    member_topics[1][2].id = 99;
    assert_eq!(elected_topics(&member_topics).unwrap_err(), ElectionError::TopicListMismatch);
    let mut short = ballots();
    short[2].pop();
    assert_eq!(elected_topics(&short).unwrap_err(), ElectionError::TopicListMismatch);
}

#[test]
fn candidates_ordered_best_first() {
    assert_eq!(order_candidates(&vec![3, 7, 3, 1], &vec![9, 1, 2, 0]), [1, 2, 0, 3]);
}

#[test]
fn names_sort_lexicographically() {
    assert_eq!(sort_names(names(&["carol", "al", "bob", "alice", "al"])), names(&["al", "al", "alice", "bob", "carol"]));
    assert!(name_le("ab", "abc"));
    assert!(!name_le("b", "abc"));
    assert!(name_le("", ""));
}

#[test]
fn same_members_ignores_order() {
    assert!(same_members(&names(&["a", "b", "c"]), &names(&["c", "a", "b"])));
    assert!(!same_members(&names(&["a", "b", "b"]), &names(&["a", "a", "b"])));
    assert!(!same_members(&names(&["a", "b"]), &names(&["a", "b", "c"])));
}

#[test]
fn voting_status_states() {
    let cohort = Some(names(&["a", "b"]));
    assert_eq!(voting_status(&None, &flags(&[])), ElectionStatus::NoCohort);
    assert_eq!(voting_status(&cohort, &flags(&[("a", true), ("b", false)])), ElectionStatus::VotingOpen);
    assert_eq!(voting_status(&cohort, &flags(&[("a", true)])), ElectionStatus::VotingOpen);
    assert_eq!(voting_status(&cohort, &flags(&[("a", true), ("c", true)])), ElectionStatus::ConsistencyError);
    assert_eq!(voting_status(&cohort, &flags(&[("b", true), ("a", true)])), ElectionStatus::Finished);
}

#[test]
fn missing_vote_reports_voting_not_finished() {
    let res = election_result(
        16,
        "standup".to_string(),
        Some(names(&["a", "b", "c"])),
        &flags(&[("a", true), ("b", false), ("c", true)]),
        &ballots(),
    )
    .unwrap();
    assert_eq!(res.status, "Cohort voting not finished");
    assert!(res.topics.is_none());
    assert!(res.users.is_none());
    assert_eq!(res.meeting_url, "");
    assert_eq!(res.meeting_id, 16);
    assert_eq!(res.meeting_name, "standup");
}

#[test]
fn unresolved_cohort_and_mismatch_statuses() {
    let res = election_result(1, "m".to_string(), None, &flags(&[]), &vec![]).unwrap();
    assert_eq!(res.status, "Empty cohort for user");
    assert_eq!(res.meeting_url, "");
    let res = election_result(
        1,
        "m".to_string(),
        Some(names(&["a", "b"])),
        &flags(&[("a", true), ("z", true)]),
        &vec![],
    )
    .unwrap();
    assert_eq!(res.status, "Unexpected cohort email mismatch");
    assert!(res.topics.is_none());
}

#[test]
fn finished_election_has_winners_members_and_link() {
    let res = election_result(
        16,
        "standup".to_string(),
        Some(names(&["c", "a", "b"])),
        &flags(&[("a", true), ("b", true), ("c", true)]),
        &ballots(),
    )
    .unwrap();
    assert_eq!(res.status, "Vote finished");
    assert_eq!(res.users, Some(names(&["a", "b", "c"])));
    let ids: Vec<u32> = res.topics.as_ref().unwrap().iter().map(|t| t.id).collect();
    assert_eq!(ids, [12, 13]);
    assert!(res.meeting_url.starts_with(PREFIX));
    let digest = &res.meeting_url[PREFIX.len()..];
    assert_eq!(digest.len(), 64);
    assert!(digest.chars().all(|c| c.is_ascii_hexdigit() && !c.is_ascii_uppercase()));
}

#[test]
fn finished_link_is_stable() {
    let run = |cohort: &[&str]| {
        election_result(
            16,
            "standup".to_string(),
            Some(names(cohort)),
            &flags(&[("a", true), ("b", true), ("c", true)]),
            &ballots(),
        )
        .unwrap()
        .meeting_url
    };
    let first = run(&["a", "b", "c"]);
    assert_eq!(first, run(&["a", "b", "c"]));
    assert_eq!(first, run(&["c", "b", "a"]));
    let other = election_result(
        17,
        "standup".to_string(),
        Some(names(&["a", "b", "c"])),
        &flags(&[("a", true), ("b", true), ("c", true)]),
        &ballots(),
    )
    .unwrap()
    .meeting_url;
    assert_ne!(first, other);
}

#[test]
fn finished_with_bad_topics_fails() {
    let mut member_topics = ballots();
    member_topics[0].swap(0, 1);
    let r = election_result(
        2,
        "m".to_string(),
        Some(names(&["a", "b", "c"])),
        &flags(&[("a", true), ("b", true), ("c", true)]),
        &member_topics,
    );
    assert_eq!(r.unwrap_err(), ElectionError::TopicListMismatch);
}

#[test]
fn link_bytes_encoding() {
    let bytes = link_bytes(258, "é", &vec![topic(1, 2, "t")], &names(&["ab"]));
    let expected: Vec<u8> = vec![
        0, 0, 1, 2, // meeting id
        0, 0, 0, 0, 0, 0, 0, 2, 0xc3, 0xa9, // name
        0, 0, 0, 0, 0, 0, 0, 1, // one topic
        0, 0, 0, 1, 0, 0, 0, 2, 0, 0, 0, 0, 0, 0, 0, 1, b't', // the topic
        0, 0, 0, 0, 0, 0, 0, 1, // one member
        0, 0, 0, 0, 0, 0, 0, 2, b'a', b'b', // the member
    ];
    assert_eq!(bytes, expected);
}

#[test]
fn link_is_the_sha256_of_the_encoding() {
    assert_eq!(link_from_digest("abc"), format!("{PREFIX}abc"));
    // Meeting 0 with an empty name, no topics and no members encodes as 28 zero bytes.
    let url = meeting_url(0, "", &vec![], &vec![]);
    let bytes = link_bytes(0, "", &vec![], &vec![]);
    assert_eq!(bytes.len(), 28);
    assert_eq!(
        url,
        format!("{PREFIX}3addfb141cd7c9c4c6543a82191a3707ac29c7a041217782e61d4d91c691aee8")
    );
    assert_ne!(url, meeting_url(1, "", &vec![], &vec![]));
}
