use reactive_engine::keyed::{reconcile_keyed_list, KeyedList, PatchOp, ReconcileError};

const A: u64 = 1;
const B: u64 = 2;
const C: u64 = 3;
const D: u64 = 4;

#[test]
fn rotation_moves_one_row() {
    let ops = reconcile_keyed_list(&vec![A, B, C], &vec![B, C, A]).unwrap();
    assert_eq!(ops, vec![PatchOp::MoveRow { key: A, index: 2 }]);
}

#[test]
fn replacing_a_middle_row() {
    let ops = reconcile_keyed_list(&vec![A, B, C], &vec![A, D, C]).unwrap();
    assert_eq!(
        ops,
        vec![PatchOp::RemoveRow { key: B }, PatchOp::CreateRow { key: D, index: 1 }]
    );
}

#[test]
fn unchanged_list_needs_no_patch() {
    let ops = reconcile_keyed_list(&vec![A, B, C], &vec![A, B, C]).unwrap();
    assert!(ops.is_empty());
    let ops = reconcile_keyed_list(&vec![], &vec![]).unwrap();
    assert!(ops.is_empty());
}

#[test]
fn reversal_keeps_one_row() {
    let ops = reconcile_keyed_list(&vec![A, B, C, D], &vec![D, C, B, A]).unwrap();
    let moves = ops.iter().filter(|o| matches!(o, PatchOp::MoveRow { .. })).count();
    assert_eq!(moves, 3);
    assert_eq!(ops.len(), 3);
}

#[test]
fn from_and_to_empty() {
    let ops = reconcile_keyed_list(&vec![], &vec![A, B]).unwrap();
    assert_eq!(
        ops,
        vec![PatchOp::CreateRow { key: A, index: 0 }, PatchOp::CreateRow { key: B, index: 1 }]
    );
    let ops = reconcile_keyed_list(&vec![A, B], &vec![]).unwrap();
    assert_eq!(ops, vec![PatchOp::RemoveRow { key: A }, PatchOp::RemoveRow { key: B }]);
}

#[test]
fn duplicate_keys_are_refused() {
    assert_eq!(reconcile_keyed_list(&vec![A, A], &vec![A]), Err(ReconcileError::DuplicateKey));
    assert_eq!(reconcile_keyed_list(&vec![A], &vec![B, B]), Err(ReconcileError::DuplicateKey));
}

fn rows(list: &KeyedList) -> Vec<(u64, u64, i64)> {
    list.rows.iter().map(|r| (r.key, r.scope, r.count)).collect()
}

#[test]
fn rows_keep_their_state_when_moved() {
    let mut list = KeyedList::new();
    list.update(&vec![(A, 1), (B, 2), (C, 3)]).unwrap();
    list.set_count(1, 20);
    let ops = list.update(&vec![(B, 0), (C, 0), (A, 0)]).unwrap();
    assert_eq!(ops, vec![PatchOp::MoveRow { key: A, index: 2 }]);
    assert_eq!(rows(&list), vec![(B, 1, 20), (C, 2, 3), (A, 0, 1)]);
}

#[test]
fn new_row_starts_fresh_and_others_keep_state() {
    let mut list = KeyedList::new();
    list.update(&vec![(A, 1), (B, 2), (C, 3)]).unwrap();
    list.set_count(0, 10);
    list.set_count(2, 30);
    let ops = list.update(&vec![(A, 0), (D, 4), (C, 0)]).unwrap();
    assert_eq!(
        ops,
        vec![PatchOp::RemoveRow { key: B }, PatchOp::CreateRow { key: D, index: 1 }]
    );
    assert_eq!(rows(&list), vec![(A, 0, 10), (D, 3, 4), (C, 2, 30)]);
    assert_eq!(list.keys(), vec![A, D, C]);
}

#[test]
fn update_with_duplicates_changes_nothing() {
    let mut list = KeyedList::new();
    list.update(&vec![(A, 1)]).unwrap();
    assert_eq!(list.update(&vec![(B, 1), (B, 2)]), Err(ReconcileError::DuplicateKey));
    assert_eq!(rows(&list), vec![(A, 0, 1)]);
}
