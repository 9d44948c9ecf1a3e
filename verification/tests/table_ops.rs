use manifold_knn::{Error, SuccessorTable};

#[test]
fn empty_table_has_empty_lists() {
    let table = SuccessorTable::empty(3);
    assert_eq!(table.len(), 3);
    assert!(!table.is_empty());
    assert_eq!(table.lists(), vec![Vec::<usize>::new(), vec![], vec![]]);
    assert!(SuccessorTable::empty(0).is_empty());
}

#[test]
fn complete_table_lists_every_later_index() {
    let table = SuccessorTable::complete(4);
    assert_eq!(table.lists(), vec![vec![1, 2, 3], vec![2, 3], vec![3], vec![]]);
}

#[test]
fn try_from_lists_reports_first_failing_entry() {
    assert_eq!(
        SuccessorTable::try_from_lists(vec![vec![1, 1], vec![]]),
        Err(Error::DuplicateSuccessor { owner: 0, successor: 1 })
    );
    assert_eq!(
        SuccessorTable::try_from_lists(vec![vec![], vec![0]]),
        Err(Error::InvalidSuccessor { owner: 1, successor: 0, len: 2 })
    );
    assert_eq!(
        SuccessorTable::try_from_lists(vec![vec![2, 1], vec![], vec![]]),
        Err(Error::UnsortedSuccessorList { owner: 0, previous: 2, current: 1 })
    );
    assert_eq!(
        SuccessorTable::try_from_lists(vec![vec![1], vec![5], vec![]]),
        Err(Error::InvalidSuccessor { owner: 1, successor: 5, len: 3 })
    );
    let ok = SuccessorTable::try_from_lists(vec![vec![1, 2], vec![2], vec![]]).unwrap();
    assert_eq!(ok.list(0), &[1, 2]);
}

#[test]
fn normalized_lists_are_sorted_and_deduplicated() {
    let table = SuccessorTable::from_lists_normalized(vec![vec![3, 1, 3, 2], vec![3, 3], vec![], vec![]])
        .unwrap();
    assert_eq!(table.lists(), vec![vec![1, 2, 3], vec![3], vec![], vec![]]);
    assert_eq!(
        SuccessorTable::from_lists_normalized(vec![vec![2], vec![0, 2], vec![]]),
        Err(Error::InvalidSuccessor { owner: 1, successor: 0, len: 3 })
    );
}

#[test]
fn insertion_neighbors_build_successor_lists() {
    let table =
        SuccessorTable::from_insertion_neighbors(3, vec![vec![], vec![0], vec![1, 0, 1]]).unwrap();
    assert_eq!(table.lists(), vec![vec![1, 2], vec![2], vec![]]);
    assert_eq!(
        SuccessorTable::from_insertion_neighbors(3, vec![vec![], vec![0]]),
        Err(Error::TableLengthMismatch { points: 3, lists: 2 })
    );
    assert_eq!(
        SuccessorTable::from_insertion_neighbors(3, vec![vec![], vec![2, 1], vec![]]),
        Err(Error::InvalidInsertionNeighbor { inserted: 1, neighbor: 1 })
    );
}

#[test]
fn insert_successor_adds_once_and_checks_edges() {
    let mut table = SuccessorTable::empty(3);
    assert_eq!(table.insert_successor(0, 2), Ok(true));
    assert_eq!(table.insert_successor(0, 1), Ok(true));
    assert_eq!(table.insert_successor(0, 2), Ok(false));
    assert_eq!(table.list(0), &[1, 2]);
    assert_eq!(table.insert_successor(5, 1), Err(Error::InvalidIndex { index: 5, len: 3 }));
    assert_eq!(
        table.insert_successor(1, 1),
        Err(Error::InvalidSuccessor { owner: 1, successor: 1, len: 3 })
    );
    assert_eq!(
        table.insert_successor(1, 3),
        Err(Error::InvalidSuccessor { owner: 1, successor: 3, len: 3 })
    );
    assert_eq!(table.list(0), &[1, 2]);
}

#[test]
fn removing_references_counts_lists() {
    let mut table = SuccessorTable::complete(4);
    assert_eq!(table.remove_references_to(2), 2);
    assert_eq!(table.lists(), vec![vec![1, 3], vec![3], vec![3], vec![]]);
    assert_eq!(table.remove_references_to(2), 0);
}

#[test]
fn clearing_lists() {
    let mut table = SuccessorTable::complete(3);
    assert_eq!(table.clear_list(0), Ok(()));
    assert_eq!(table.lists(), vec![vec![], vec![2], vec![]]);
    assert_eq!(table.clear_list(3), Err(Error::InvalidIndex { index: 3, len: 3 }));
    table.clear_all();
    assert_eq!(table, SuccessorTable::empty(3));
}

#[test]
fn push_empty_list_grows_table() {
    let mut table = SuccessorTable::complete(2);
    table.push_empty_list();
    assert_eq!(table.len(), 3);
    assert_eq!(table.lists(), vec![vec![1], vec![], vec![]]);
    assert_eq!(table.insert_successor(1, 2), Ok(true));
}

#[test]
fn validation_checks_length() {
    let table = SuccessorTable::complete(3);
    assert_eq!(table.validate(), Ok(()));
    assert_eq!(table.validate_for_len(3), Ok(()));
    assert_eq!(
        table.validate_for_len(4),
        Err(Error::TableLengthMismatch { points: 4, lists: 3 })
    );
}
