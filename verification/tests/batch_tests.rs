//! The instance batcher's diffing behaviour on plain records.

use stage3d::batch::Batcher;

fn keys(v: &Vec<u64>) -> Vec<u64> {
    let mut k = v.clone();
    k.sort();
    k
}

#[test]
fn first_run_creates_one_buffer_per_key() {
    let mut b: Batcher<u32> = Batcher::new();
    let items = vec![(1u64, 10u32), (1, 11), (2, 20)];
    let plan = b.rebatch(&items);
    assert_eq!(keys(&plan.created), vec![1, 2]);
    assert!(plan.resized.is_empty());
    assert!(plan.updated.is_empty());
    assert!(plan.removed.is_empty());

    let slot1 = b.slots.get(1).unwrap();
    assert_eq!(slot1.records, vec![10, 11]);
    assert_eq!(slot1.capacity, 2);
    let slot2 = b.slots.get(2).unwrap();
    assert_eq!(slot2.records, vec![20]);
    assert_eq!(slot2.capacity, 1);
}

#[test]
fn second_run_with_same_items_only_updates_in_place() {
    let mut b: Batcher<u32> = Batcher::new();
    let items = vec![(1u64, 10u32), (1, 11), (2, 20)];
    b.rebatch(&items);
    let plan = b.rebatch(&items);
    assert!(plan.created.is_empty());
    assert!(plan.resized.is_empty());
    assert!(plan.removed.is_empty());
    assert_eq!(keys(&plan.updated), vec![1, 2]);
}

#[test]
fn vanished_key_is_evicted() {
    let mut b: Batcher<u32> = Batcher::new();
    b.rebatch(&vec![(1u64, 10u32), (2, 20)]);
    let plan = b.rebatch(&vec![(1u64, 12u32)]);
    assert_eq!(plan.removed, vec![2]);
    assert!(b.slots.get(2).is_none());
    assert_eq!(b.slots.get(1).unwrap().records, vec![12]);
}

#[test]
fn capacity_is_kept_while_records_fit_and_grows_otherwise() {
    let mut b: Batcher<u32> = Batcher::new();
    b.rebatch(&vec![(5u64, 1u32), (5, 2), (5, 3)]);
    assert_eq!(b.slots.get(5).unwrap().capacity, 3);

    let plan = b.rebatch(&vec![(5u64, 9u32)]);
    assert_eq!(plan.updated, vec![5]);
    let slot = b.slots.get(5).unwrap();
    assert_eq!(slot.records, vec![9]);
    assert_eq!(slot.capacity, 3);

    let plan = b.rebatch(&vec![(5u64, 1u32), (5, 2), (5, 3), (5, 4), (5, 5)]);
    assert_eq!(plan.resized, vec![5]);
    let slot = b.slots.get(5).unwrap();
    assert_eq!(slot.records.len(), 5);
    assert_eq!(slot.capacity, 5);
}

#[test]
fn draw_list_counts_match_record_counts() {
    let mut b: Batcher<u32> = Batcher::new();
    b.rebatch(&vec![(1u64, 0u32), (1, 0), (1, 0), (2, 0)]);
    let draws = b.draw_list();
    assert_eq!(draws.len(), 2);
    assert!(draws.contains(&(1u64, 3usize)));
    assert!(draws.contains(&(2u64, 1usize)));
}
