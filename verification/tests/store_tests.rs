use replay_store::records::{LabelStored, TrainStored};
use replay_store::store::{IntegrityFault, KVStore};

fn label_vec(x: f32) -> Vec<u32> {
    vec![x.to_bits(); 4]
}

fn chrono_vec() -> Vec<u32> {
    vec![1.0f32.to_bits(); 2]
}

fn series_vec() -> Vec<u32> {
    vec![2.0f32.to_bits(); 6]
}

fn label(event_id: u64, offset_from: i64, offset_to: i64) -> LabelStored {
    LabelStored {
        event_id,
        timestamp: event_id as i64 * 10,
        offset_from,
        offset_to,
        label: label_vec(event_id as f32),
    }
}

fn train(event_id: u64, timestamp: i64, loss: f32) -> TrainStored {
    TrainStored {
        event_id,
        timestamp,
        partition: 0,
        offset: event_id as i64 * 10,
        input: (chrono_vec(), series_vec()),
        output: label_vec(0.0),
        loss: loss.to_bits(),
    }
}

#[test]
fn label_max_none_on_empty() {
    let store = KVStore::new(1);
    assert!(store.label_max().is_none());
}

#[test]
fn label_max_returns_greatest_event_id() {
    let mut store = KVStore::new(1);
    store.store_label(&label(3, 20, 30));
    store.store_label(&label(1, 0, 10));
    store.store_label(&label(2, 10, 20));
    let max = store.label_max().unwrap();
    assert_eq!(max.event_id, 3);
    assert_eq!(max.offset_to, 30);
}

#[test]
fn store_label_upsert_is_last_write_wins() {
    let mut store = KVStore::new(1);
    assert_eq!(store.store_label(&label(7, 0, 10)), 1);
    let mut second = label(7, 0, 10);
    second.label = label_vec(99.0);
    assert_eq!(store.store_label(&second), 1);
    let rows = store.label_lookup(0, 10);
    assert_eq!(rows.len(), 1);
    assert_eq!(rows[0].event_id, 7);
    assert_eq!(rows[0].label, label_vec(99.0));
}

#[test]
fn label_lookup_filters_and_pages() {
    let mut store = KVStore::new(1);
    for id in 1..=5u64 {
        let from = (id as i64 - 1) * 10;
        store.store_label(&label(id, from, from + 10));
    }
    let rows = store.label_lookup(15, 10);
    let ids: Vec<u64> = rows.iter().map(|r| r.event_id).collect();
    assert_eq!(ids, vec![3, 4, 5]);
    assert!(rows.iter().all(|r| r.offset_from >= 15));
    let page = store.label_lookup(15, 2);
    let page_ids: Vec<u64> = page.iter().map(|r| r.event_id).collect();
    assert_eq!(page_ids, vec![3, 4]);
}

#[test]
fn top_loss_orders_by_loss_descending_then_id() {
    let mut store = KVStore::new(1);
    store.store_train(&train(1, 100, 0.5));
    store.store_train(&train(2, 100, 0.9));
    store.store_train(&train(3, 100, 0.5));
    let rows = store.top_loss(10);
    let ids: Vec<u64> = rows.iter().map(|r| r.event_id).collect();
    assert_eq!(ids, vec![2, 1, 3]);
    let rows2 = store.top_loss(2);
    assert_eq!(rows2.len(), 2);
    assert_eq!(rows2[0].event_id, 2);
    assert_eq!(rows2[1].event_id, 1);
}

#[test]
fn store_train_upsert_keeps_one_index_row() {
    let mut store = KVStore::new(1);
    store.store_train(&train(1, 100, 0.5));
    store.store_train(&train(1, 200, 0.8));
    let rows = store.top_loss(10);
    assert_eq!(rows.len(), 1);
    assert_eq!(rows[0].event_id, 1);
    assert_eq!(rows[0].loss, 0.8f32.to_bits());
    assert_eq!(rows[0].timestamp, 200);
}

#[test]
fn replace_loss_leaves_exactly_one_row_with_new_loss() {
    let mut store = KVStore::new(1);
    store.store_train(&train(1, 100, 0.9));
    store.store_train(&train(2, 100, 0.4));
    let updated = store.replace_loss(1, &label_vec(1.0), 0.05f32.to_bits(), 300);
    assert!(updated);
    let rows = store.top_loss(10);
    let for_one: Vec<_> = rows.iter().filter(|r| r.event_id == 1).collect();
    assert_eq!(for_one.len(), 1);
    assert_eq!(for_one[0].loss, 0.05f32.to_bits());
    assert_eq!(for_one[0].timestamp, 300);
    assert_eq!(rows[0].event_id, 2);
}

#[test]
fn replace_loss_on_unknown_key_changes_nothing() {
    let mut store = KVStore::new(1);
    store.store_train(&train(1, 100, 0.9));
    let updated = store.replace_loss(42, &label_vec(1.0), 0.5f32.to_bits(), 300);
    assert!(!updated);
    let rows = store.top_loss(10);
    assert_eq!(rows.len(), 1);
    assert_eq!(rows[0].event_id, 1);
    assert_eq!(rows[0].loss, 0.9f32.to_bits());
}

#[test]
fn store_trains_is_union_of_upserts() {
    let mut store = KVStore::new(1);
    let n = store.store_trains(vec![train(1, 100, 0.9), train(2, 50, 0.1), train(1, 150, 0.3)]);
    assert_eq!(n, 3);
    let rows = store.top_loss(10);
    assert_eq!(rows.len(), 2);
    assert_eq!(rows[0].event_id, 1);
    assert_eq!(rows[0].loss, 0.3f32.to_bits());
    assert_eq!(rows[1].event_id, 2);
}

#[test]
fn update_retrainers_counts_matched_rows() {
    let mut store = KVStore::new(1);
    store.store_trains(vec![train(1, 100, 0.9), train(2, 50, 0.1)]);
    let n = store.update_retrainers(
        500,
        vec![1, 99],
        vec![label_vec(1.0), label_vec(2.0)],
        vec![0.2f32.to_bits(), 0.3f32.to_bits()],
    );
    assert_eq!(n, 1);
    let rows = store.top_loss(10);
    let for_one: Vec<_> = rows.iter().filter(|r| r.event_id == 1).collect();
    assert_eq!(for_one.len(), 1);
    assert_eq!(for_one[0].loss, 0.2f32.to_bits());
    assert_eq!(for_one[0].timestamp, 500);
}

#[test]
fn top_oldest_selects_within_window_ascending() {
    let mut store = KVStore::new(1);
    store.store_trains(vec![
        train(1, 100, 0.9),
        train(2, 50, 0.1),
        train(3, 1_000_000_000, 0.5),
    ]);
    let (rows, insufficient) = store.top_oldest(5);
    let ids: Vec<u64> = rows.iter().map(|r| r.event_id).collect();
    assert_eq!(ids, vec![2, 1]);
    assert!(insufficient);
    let (rows2, insufficient2) = store.top_oldest(2);
    assert_eq!(rows2.len(), 2);
    assert!(!insufficient2);
}

#[test]
fn top_oldest_window_is_configurable() {
    let mut store = KVStore::new(1);
    store.set_oldest_window(0);
    store.store_trains(vec![train(1, 100, 0.9), train(2, 50, 0.1)]);
    let (rows, _) = store.top_oldest(5);
    let ids: Vec<u64> = rows.iter().map(|r| r.event_id).collect();
    assert_eq!(ids, vec![2]);
}

#[test]
fn top_oldest_breaks_timestamp_ties_by_id() {
    let mut store = KVStore::new(1);
    store.store_trains(vec![train(5, 70, 0.3), train(2, 70, 0.8), train(9, 70, 0.5)]);
    let (rows, _) = store.top_oldest(3);
    let ids: Vec<u64> = rows.iter().map(|r| r.event_id).collect();
    assert_eq!(ids, vec![2, 5, 9]);
}

#[test]
fn scenario_top_loss_and_safe_offset() {
    let mut store = KVStore::new(1);
    for id in 1..=5u64 {
        let from = (id as i64 - 1) * 10;
        store.store_label(&label(id, from, from + 10));
    }
    let losses = [0.9f32, 0.1, 0.5];
    for id in 1..=3u64 {
        store.store_train(&train(id, 100 + id as i64, losses[id as usize - 1]));
    }
    let rows = store.top_loss(2);
    let ids: Vec<u64> = rows.iter().map(|r| r.event_id).collect();
    assert_eq!(ids, vec![1, 3]);
    assert_eq!(store.next_safe_predict_offset(), Ok(30));
}

#[test]
fn next_safe_predict_offset_fails_on_empty_store() {
    let store = KVStore::new(1);
    assert_eq!(
        store.next_safe_predict_offset(),
        Err(IntegrityFault::NoTrainedRows)
    );
}

#[test]
fn next_safe_predict_offset_fails_without_label() {
    let mut store = KVStore::new(1);
    store.store_train(&train(4, 100, 0.5));
    assert_eq!(
        store.next_safe_predict_offset(),
        Err(IntegrityFault::MissingLabel(4))
    );
}

#[test]
fn scenario_retrainers_union_without_duplication() {
    let mut store = KVStore::new(1);
    store.store_label(&label(1, 0, 10));
    store.store_label(&label(2, 10, 20));
    store.store_trains(vec![train(1, 100, 0.9), train(2, 50, 0.1)]);
    let out = store.retrainers(1, 1).unwrap();
    let ids: Vec<u64> = out.iter().map(|r| r.event_id).collect();
    assert_eq!(ids, vec![1, 2]);
    assert_eq!(out[0].loss, 0.9f32.to_bits());
    assert_eq!(out[1].timestamp, 50);
    assert_eq!(out[0].label, label_vec(1.0));
}

#[test]
fn retrainers_single_entry_when_selections_coincide() {
    let mut store = KVStore::new(1);
    store.store_label(&label(1, 0, 10));
    store.store_train(&train(1, 100, 0.9));
    let out = store.retrainers(1, 1).unwrap();
    assert_eq!(out.len(), 1);
    assert_eq!(out[0].event_id, 1);
}

#[test]
fn retrainers_fault_on_missing_label() {
    let mut store = KVStore::new(1);
    store.store_label(&label(1, 0, 10));
    store.store_trains(vec![train(1, 100, 0.9), train(2, 50, 0.1)]);
    assert!(matches!(
        store.retrainers(2, 0),
        Err(IntegrityFault::MissingLabel(2))
    ));
}

#[test]
fn zero_counts_give_empty_results() {
    let mut store = KVStore::new(1);
    store.store_label(&label(1, 0, 10));
    store.store_train(&train(1, 100, 0.9));
    assert!(store.label_lookup(0, 0).is_empty());
    assert!(store.top_loss(0).is_empty());
    let (rows, insufficient) = store.top_oldest(0);
    assert!(rows.is_empty());
    assert!(!insufficient);
    assert!(store.retrainers(0, 0).unwrap().is_empty());
}

#[test]
fn top_loss_is_stable_under_unchanged_data() {
    let mut store = KVStore::new(1);
    store.store_trains(vec![train(4, 10, 0.5), train(2, 20, 0.5), train(7, 30, 0.9)]);
    let a: Vec<u64> = store.top_loss(3).iter().map(|r| r.event_id).collect();
    let b: Vec<u64> = store.top_loss(3).iter().map(|r| r.event_id).collect();
    assert_eq!(a, b);
    assert_eq!(a, vec![7, 2, 4]);
}

#[test]
fn resets_clear_their_scope() {
    let mut store = KVStore::new(1);
    store.store_label(&label(1, 0, 10));
    store.store_train(&train(1, 100, 0.9));
    store.reset_label_data();
    assert!(store.label_max().is_none());
    assert_eq!(store.top_loss(10).len(), 1);
    store.reset_train_data();
    assert!(store.top_loss(10).is_empty());
    assert_eq!(
        store.next_safe_predict_offset(),
        Err(IntegrityFault::NoTrainedRows)
    );
}
