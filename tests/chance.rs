use ehallway::chance::{cohorts, form_cohorts, split_into_cohorts, start_meeting, COHORT_QUORUM};
use ehallway::InputError;

fn check_partition(n: usize, k: usize, c: &Vec<Vec<usize>>) {
    let mut seen = vec![0usize; n];
    let mut total = 0;
    for (g, group) in c.iter().enumerate() {
        if g + 1 < c.len() {
            assert_eq!(group.len(), k);
        } else {
            assert!(group.len() >= 1 && group.len() <= k);
        }
        for &i in group {
            assert!(i < n);
            seen[i] += 1;
        }
        total += group.len();
    }
    assert_eq!(total, n);
    assert!(seen.iter().all(|&s| s == 1));
}

#[test]
fn test_cohorts() {
    let mut c = cohorts(3, 1).unwrap();
    assert_eq!(c.len(), 3);
    assert_eq!(c[0].len(), 1);
    c = cohorts(3, 2).unwrap();
    println!("{:?}", c);
    assert_eq!(c.len(), 2);
    assert_eq!(c[0].len(), 2);
    assert_eq!(c[1].len(), 1);
}

#[test]
fn cohorts_partition_every_index_once() {
    for (n, k) in [(1, 1), (7, 3), (9, 3), (10, 4), (5, 5), (12, 1)] {
        let c = cohorts(n, k).unwrap();
        assert_eq!(c.len(), (n + k - 1) / k);
        check_partition(n, k, &c);
    }
}

#[test]
fn cohorts_need_enough_participants() {
    assert_eq!(cohorts(2, 3), Err(InputError::InsufficientParticipants));
    assert_eq!(cohorts(0, 1), Err(InputError::InsufficientParticipants));
}

#[test]
fn cohorts_are_shuffled() {
    let identity: Vec<Vec<usize>> = vec![(0..20).collect()];
    let shuffled = (0..5).any(|_| cohorts(20, 20).unwrap() != identity);
    assert!(shuffled);
}

#[test]
fn split_cuts_consecutive_pieces() {
    let order = vec![4, 0, 6, 2, 5, 1, 3];
    assert_eq!(split_into_cohorts(&order, 3), vec![vec![4, 0, 6], vec![2, 5, 1], vec![3]]);
    assert_eq!(split_into_cohorts(&vec![1, 0], 2), vec![vec![1, 0]]);
    assert_eq!(split_into_cohorts(&vec![], 2), Vec::<Vec<usize>>::new());
}

#[test]
fn formed_cohorts_hold_every_attendee_once() {
    let attendees: Vec<String> = ["a@x", "b@x", "c@x", "d@x", "e@x"].iter().map(|s| s.to_string()).collect();
    let rows = form_cohorts(&attendees, 2).unwrap();
    assert_eq!(rows.len(), 5);
    let mut names: Vec<String> = rows.iter().map(|r| r.participant.clone()).collect();
    names.sort();
    assert_eq!(names, attendees);
    let sizes: Vec<usize> = (0..3).map(|g| rows.iter().filter(|r| r.cohort == g).count()).collect();
    assert_eq!(sizes, [2, 2, 1]);
    assert!(rows.windows(2).all(|w| w[0].cohort <= w[1].cohort));
    assert_eq!(form_cohorts(&attendees, 6).unwrap_err(), InputError::InsufficientParticipants);
}

#[test]
fn only_the_creator_partitions() {
    let attendees: Vec<String> = ["a", "b", "c", "d"].iter().map(|s| s.to_string()).collect();
    assert!(start_meeting(false, &attendees).unwrap().is_empty());
    let rows = start_meeting(true, &attendees).unwrap();
    assert_eq!(rows.len(), 4);
    assert_eq!(rows.iter().filter(|r| r.cohort == 0).count(), COHORT_QUORUM);
    let few: Vec<String> = vec!["a".to_string()];
    assert_eq!(start_meeting(true, &few).unwrap_err(), InputError::InsufficientParticipants);
    assert!(start_meeting(false, &few).unwrap().is_empty());
}
