use ehallway::cull::{borda_count, Ranking};
use ehallway::order::argsort;
use ehallway::InputError;

#[test]
fn cull_test_argsort() {
    let a: Vec<usize> = (0..10).collect();
    let b = a.clone();
    let i = argsort(&b);
    let bb: Vec<usize> = i.iter().map(|j| b[*j]).collect();
    assert_eq!(a.len(), bb.len());
    for (i, j) in a.iter().zip(bb.iter()) {
        assert_eq!(i, j);
    }
}

#[test]
fn cull_test_borda_count_agree() {
    let rankings = [
        Ranking { scores: vec![0, 1, 2] },
        Ranking { scores: vec![3, 4, 5] },
        Ranking { scores: vec![6, 7, 8] },
    ];
    let count = borda_count(&rankings).unwrap();
    assert_eq!(count, [0, 3, 6]);
}

#[test]
fn test_borda_one_ranking() {
    let rankings = [
        Ranking { scores: vec![9, 5, 11, 0, 4, 6, 8, 1, 7, 2, 3, 10] },
        Ranking { scores: vec![0, 1, 2] },
        Ranking { scores: vec![3, 5, 4] },
        Ranking { scores: vec![8, 7, 6] },
    ];
    for r in rankings.into_iter() {
        let rr = &[r.clone()];
        let count = borda_count(rr).unwrap();
        let i_expected = argsort(&r.scores);
        let i_observed = argsort(&count);
        assert_eq!(i_expected, i_observed);
    }
}

#[test]
fn cull_test_borda_count_disagree() {
    let rankings = [
        Ranking { scores: vec![0, 1, 2] },
        Ranking { scores: vec![3, 4, 5] },
        Ranking { scores: vec![8, 7, 6] },
    ];
    let count = borda_count(&rankings).unwrap();
    assert_eq!(count, [2, 3, 4]);
}

#[test]
fn borda_count_of_no_rankings_is_empty() {
    let rankings: [Ranking; 0] = [];
    assert_eq!(borda_count(&rankings).unwrap(), Vec::<usize>::new());
}

#[test]
fn borda_count_refuses_unequal_lengths() {
    let rankings = [Ranking { scores: vec![0, 1, 2] }, Ranking { scores: vec![3, 4] }];
    assert_eq!(borda_count(&rankings), Err(InputError::RankingLengthMismatch));
    let rankings = [
        Ranking { scores: vec![0, 1] },
        Ranking { scores: vec![3, 4] },
        Ranking { scores: vec![5] },
    ];
    assert_eq!(borda_count(&rankings), Err(InputError::RankingLengthMismatch));
}

#[test]
fn borda_points_are_positions_not_sorted_indices() {
    // The single voter prefers candidate 0 most, then 3, 1 and 2.
    let rankings = [Ranking { scores: vec![9, 5, 1, 7] }];
    assert_eq!(borda_count(&rankings).unwrap(), [3, 1, 0, 2]);
}

#[test]
fn borda_count_breaks_equal_scores_by_position() {
    let rankings = [Ranking { scores: vec![4, 4, 1] }, Ranking { scores: vec![0, 2, 2] }];
    // First voter: candidate 2 lowest, then 0, then 1. Second: 0, then 1, then 2.
    assert_eq!(borda_count(&rankings).unwrap(), [1, 3, 2]);
}

#[test]
fn single_voter_order_is_kept() {
    let r = vec![3, 3, 0, 8, 5, 3];
    let count = borda_count(&[Ranking { scores: r.clone() }]).unwrap();
    assert_eq!(argsort(&count), argsort(&r));
    assert_eq!(count, [1, 2, 0, 5, 4, 3]);
}

#[test]
fn argsort_is_stable_on_equal_values() {
    assert_eq!(argsort(&[5, 1, 5, 0, 1]), [3, 1, 4, 0, 2]);
    assert_eq!(argsort(&[]), Vec::<usize>::new());
}
