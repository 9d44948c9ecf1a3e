use manifold_knn::{DeleteReport, Error, ManifoldKnn, Neighbor, QueryWorkspace, SuccessorTable};

fn line_points(n: usize) -> Vec<i64> {
    (0..n as i64).collect()
}

/// Squared distance on the integer line, as an ordering key.
fn dist_to(q: i64) -> impl Fn(&i64) -> u64 {
    move |p: &i64| ((p - q) * (p - q)) as u64
}

fn n(index: usize, distance_key: u64) -> Neighbor {
    Neighbor { index, distance_key }
}

#[test]
fn new_checks_table_length() {
    assert_eq!(
        ManifoldKnn::new(line_points(3), SuccessorTable::complete(2)).err(),
        Some(Error::TableLengthMismatch { points: 3, lists: 2 })
    );
    let index = ManifoldKnn::new(line_points(3), SuccessorTable::complete(3)).unwrap();
    assert_eq!(index.len(), 3);
    assert_eq!(index.active_len(), 3);
    assert!(!index.is_empty());
    assert_eq!(index.points(), &[0, 1, 2]);
}

#[test]
fn knn_on_a_line() {
    let index = ManifoldKnn::from_complete_successors(line_points(6)).unwrap();
    let result = index.knn(&dist_to(4), 3).unwrap();
    assert_eq!(result, vec![n(4, 0), n(3, 1), n(5, 1)]);
    assert_eq!(index.nearest(&dist_to(4)).unwrap(), Some(n(4, 0)));
    assert_eq!(index.knn(&dist_to(4), 0).unwrap(), vec![]);
    assert_eq!(index.knn(&dist_to(4), 100).unwrap().len(), 6);
}

#[test]
fn prefix_queries_ignore_later_points() {
    let index = ManifoldKnn::from_complete_successors(line_points(6)).unwrap();
    assert_eq!(index.knn_prefix(&dist_to(5), 2, 3).unwrap(), vec![n(2, 9), n(1, 16)]);
    assert_eq!(index.knn_prefix(&dist_to(5), 2, 0).unwrap(), vec![]);
    assert_eq!(
        index.knn_prefix(&dist_to(5), 2, 7),
        Err(Error::InvalidPrefix { prefix_len: 7, len: 6 })
    );
    assert_eq!(
        index.brute_force_knn_prefix(&dist_to(5), 2, 7),
        Err(Error::InvalidPrefix { prefix_len: 7, len: 6 })
    );
    assert_eq!(index.brute_force_knn_prefix(&dist_to(5), 2, 3).unwrap(), vec![n(2, 9), n(1, 16)]);
}

#[test]
fn ties_are_broken_by_birth_index() {
    let index = ManifoldKnn::from_complete_successors(vec![2, 0, 4, 2]).unwrap();
    assert_eq!(index.knn(&dist_to(2), 2).unwrap(), vec![n(0, 0), n(3, 0)]);
    assert_eq!(index.knn(&dist_to(1), 4).unwrap(), vec![n(0, 1), n(1, 1), n(3, 1), n(2, 9)]);
}

#[test]
fn transition_sites_follow_improving_successors() {
    let index = ManifoldKnn::from_complete_successors(line_points(4)).unwrap();
    let sites = index.transition_sites(&dist_to(3), 10).unwrap();
    assert_eq!(sites, vec![n(3, 0), n(2, 1), n(1, 4), n(0, 9)]);
    assert_eq!(index.transition_sites(&dist_to(3), 2).unwrap(), vec![n(3, 0), n(2, 1)]);
    assert_eq!(index.transition_sites(&dist_to(3), 0).unwrap(), vec![]);
    assert_eq!(index.transition_sites(&dist_to(0), 10).unwrap(), vec![n(0, 0)]);
    assert_eq!(index.transition_sites_prefix(&dist_to(3), 10, 2).unwrap(), vec![n(1, 4), n(0, 9)]);
    assert_eq!(
        index.transition_sites_prefix(&dist_to(3), 10, 5),
        Err(Error::InvalidPrefix { prefix_len: 5, len: 4 })
    );
}

#[test]
fn sparse_table_query_stops_at_a_local_minimum() {
    // Only the chain 0 -> 1 and 0 -> 3 are linked; point 2 is never reached.
    let table = SuccessorTable::try_from_lists(vec![vec![1, 3], vec![], vec![], vec![]]).unwrap();
    let index = ManifoldKnn::new(vec![0, 10, 3, 5], table).unwrap();
    let sites = index.transition_sites(&dist_to(4), 10).unwrap();
    assert_eq!(sites, vec![n(3, 1), n(0, 16)]);
    assert_eq!(index.brute_force_knn(&dist_to(4), 1).unwrap(), vec![n(2, 1)]);
    assert_eq!(index.brute_force_knn(&dist_to(3), 1).unwrap(), vec![n(2, 0)]);
}

#[test]
fn workspace_results_match_allocating_queries() {
    let index = ManifoldKnn::from_complete_successors(line_points(8)).unwrap();
    let mut ws = QueryWorkspace::new();
    let mut ws2 = QueryWorkspace::default();
    for q in [0, 3, 7, 11] {
        let expected = index.knn(&dist_to(q), 3).unwrap();
        assert_eq!(index.knn_with_workspace(&dist_to(q), 3, &mut ws).unwrap(), expected.as_slice());
        assert_eq!(index.knn_prefix_with_workspace(&dist_to(q), 3, 8, &mut ws2).unwrap(), expected.as_slice());
        assert_eq!(index.nearest_with_workspace(&dist_to(q), &mut ws).unwrap(), Some(expected[0]));
        let sites = index.transition_sites(&dist_to(q), 4).unwrap();
        assert_eq!(index.transition_sites_with_workspace(&dist_to(q), 4, &mut ws).unwrap(), sites.as_slice());
        assert_eq!(
            index.transition_sites_prefix_with_workspace(&dist_to(q), 4, 8, &mut ws).unwrap(),
            sites.as_slice()
        );
    }
}

#[test]
fn insertion_rejects_late_or_inactive_neighbors() {
    let mut index = ManifoldKnn::from_complete_successors(line_points(3)).unwrap();
    assert_eq!(
        index.insert_with_neighbors(9, vec![0, 5, 3]),
        Err(Error::InvalidInsertionNeighbor { inserted: 3, neighbor: 3 })
    );
    assert_eq!(index.len(), 3);
    index.delete_with_new_successors(1, vec![]).unwrap();
    assert_eq!(
        index.insert_with_neighbors(9, vec![2, 1, 0]),
        Err(Error::InactivePoint { index: 1 })
    );
    assert_eq!(index.insert_with_neighbors(9, vec![2, 0, 2]), Ok(3));
    assert_eq!(index.successors().list(0), &[2, 3]);
    assert_eq!(index.successors().list(2), &[3]);
    assert_eq!(index.successors().list(3), &[] as &[usize]);
    assert!(index.is_active(3));
}

#[test]
fn deletion_with_new_successors() {
    let table = SuccessorTable::try_from_lists(vec![vec![1], vec![2, 3], vec![3], vec![]]).unwrap();
    let mut index = ManifoldKnn::new(line_points(4), table).unwrap();
    let report = index
        .delete_with_new_successors(1, vec![(0, 3), (0, 2), (2, 3), (0, 2)])
        .unwrap();
    assert_eq!(
        report,
        DeleteReport { removed_references: 1, inserted_successors: 2, already_present: 1 }
    );
    assert_eq!(index.successors().list(0), &[2, 3]);
    assert_eq!(index.successors().list(1), &[] as &[usize]);
    assert_eq!(index.successors().list(2), &[3]);
    assert!(!index.is_active(1));
    assert_eq!(index.active_len(), 3);
    assert_eq!(index.active_indices(), vec![0, 2, 3]);
}

#[test]
fn deletion_errors_leave_the_index_unchanged() {
    let mut index = ManifoldKnn::from_complete_successors(line_points(4)).unwrap();
    assert_eq!(
        index.delete_with_new_successors(4, vec![]),
        Err(Error::InvalidIndex { index: 4, len: 4 })
    );
    assert_eq!(
        index.delete_with_new_successors(1, vec![(2, 9), (3, 2)]),
        Err(Error::InvalidIndex { index: 9, len: 4 })
    );
    assert_eq!(
        index.delete_with_new_successors(1, vec![(3, 2), (0, 1)]),
        Err(Error::InvalidSuccessor { owner: 0, successor: 1, len: 4 })
    );
    assert_eq!(index.active_len(), 4);
    assert_eq!(index.successors(), &SuccessorTable::complete(4));
    index.delete_rebuild_complete(2).unwrap();
    assert_eq!(
        index.delete_with_new_successors(2, vec![]),
        Err(Error::InactivePoint { index: 2 })
    );
    assert_eq!(
        index.delete_with_new_successors(0, vec![(1, 2)]),
        Err(Error::InactivePoint { index: 2 })
    );
    assert_eq!(
        index.delete_with_new_successors(0, vec![(3, 1)]),
        Err(Error::InvalidSuccessor { owner: 3, successor: 1, len: 4 })
    );
    assert_eq!(
        index.delete_with_new_successors(3, vec![(0, 2)]),
        Err(Error::InactivePoint { index: 2 })
    );
    assert_eq!(index.delete_rebuild_complete(2), Err(Error::InactivePoint { index: 2 }));
    assert_eq!(index.delete_rebuild_complete(7), Err(Error::InvalidIndex { index: 7, len: 4 }));
}

#[test]
fn rebuild_after_delete_is_complete_over_active_points() {
    let table = SuccessorTable::try_from_lists(vec![vec![1], vec![2], vec![3], vec![]]).unwrap();
    let mut index = ManifoldKnn::new(line_points(4), table).unwrap();
    let report = index.delete_rebuild_complete(1).unwrap();
    assert_eq!(
        report,
        DeleteReport { removed_references: 1, inserted_successors: 3, already_present: 0 }
    );
    assert_eq!(index.successors().lists(), vec![vec![2, 3], vec![], vec![3], vec![]]);
    assert_eq!(index.knn(&dist_to(1), 4).unwrap(), vec![n(0, 1), n(2, 1), n(3, 4)]);
}

#[test]
fn deleting_every_point_leaves_no_answer() {
    let mut index = ManifoldKnn::from_complete_successors(line_points(2)).unwrap();
    index.delete_rebuild_complete(0).unwrap();
    index.delete_rebuild_complete(1).unwrap();
    assert_eq!(index.nearest(&dist_to(0)).unwrap(), None);
    assert_eq!(index.knn(&dist_to(0), 3).unwrap(), vec![]);
    assert_eq!(index.transition_sites(&dist_to(0), 3).unwrap(), vec![]);
    assert_eq!(index.active_len(), 0);
    assert_eq!(index.len(), 2);
}

#[test]
fn successor_table_can_be_edited_in_place() {
    let mut index = ManifoldKnn::new(line_points(3), SuccessorTable::empty(3)).unwrap();
    assert_eq!(index.transition_sites(&dist_to(2), 3).unwrap(), vec![n(0, 4)]);
    index.successors_mut().insert_successor(0, 2).unwrap();
    assert_eq!(index.transition_sites(&dist_to(2), 3).unwrap(), vec![n(2, 0), n(0, 4)]);
}

#[test]
fn insertion_neighbor_lists_must_match_points() {
    assert_eq!(
        ManifoldKnn::from_insertion_neighbors(line_points(2), vec![vec![]]).err(),
        Some(Error::TableLengthMismatch { points: 2, lists: 1 })
    );
    assert_eq!(
        ManifoldKnn::from_insertion_neighbors(line_points(2), vec![vec![], vec![1]]).err(),
        Some(Error::InvalidInsertionNeighbor { inserted: 1, neighbor: 1 })
    );
}

#[test]
fn empty_index_answers_nothing() {
    let index: ManifoldKnn<i64> = ManifoldKnn::from_complete_successors(vec![]).unwrap();
    assert!(index.is_empty());
    assert_eq!(index.nearest(&dist_to(0)).unwrap(), None);
    assert_eq!(index.brute_force_knn(&dist_to(0), 2).unwrap(), vec![]);
}

#[test]
fn inserting_with_every_active_earlier_point_keeps_queries_exact() {
    let mut index = ManifoldKnn::from_complete_successors(vec![5, 1, 8, 3]).unwrap();
    index.delete_with_new_successors(2, vec![]).unwrap();
    let new_index = index.insert_with_neighbors(4, index.active_indices()).unwrap();
    assert_eq!(new_index, 4);
    for q in [0, 2, 4, 6, 9] {
        for k in 1..6 {
            assert_eq!(index.knn(&dist_to(q), k).unwrap(), index.brute_force_knn(&dist_to(q), k).unwrap());
        }
    }
}

#[test]
fn prefix_query_matches_the_index_of_the_prefix() {
    // Sparse insertion neighbors: each point links to its predecessor only.
    let points = vec![0, 9, 4, 7, 2, 8];
    let neighbors: Vec<Vec<usize>> = (0..points.len())
        .map(|j| if j == 0 { vec![] } else { vec![j - 1] })
        .collect();
    let full = ManifoldKnn::from_insertion_neighbors(points.clone(), neighbors.clone()).unwrap();
    let short = ManifoldKnn::from_insertion_neighbors(points[..4].to_vec(), neighbors[..4].to_vec()).unwrap();
    for q in [0, 3, 5, 8, 10] {
        for k in 0..5 {
            assert_eq!(full.knn_prefix(&dist_to(q), k, 4).unwrap(), short.knn(&dist_to(q), k).unwrap());
        }
    }
    assert_eq!(full.knn_prefix(&dist_to(8), 2, 4).unwrap(), vec![n(1, 1), n(3, 1)]);
}

#[test]
fn sparse_table_answer_expands_the_best_candidates() {
    // 0 -> 1 -> 2 is a chain, and 3 hangs off 2 only.
    let table = SuccessorTable::try_from_lists(vec![vec![1], vec![2], vec![3], vec![]]).unwrap();
    let index = ManifoldKnn::new(vec![10, 6, 3, 0], table).unwrap();
    // The transition sites from 0 reach 3 through the chain.
    assert_eq!(index.knn(&dist_to(0), 2).unwrap(), vec![n(3, 0), n(2, 9)]);
    // From the far side, 0 is the best start and nothing improves on it.
    assert_eq!(index.knn(&dist_to(12), 2).unwrap(), vec![n(0, 4), n(1, 36)]);
}
