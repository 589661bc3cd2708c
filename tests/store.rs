use entity_store::cell::DataCell;
use entity_store::codec::encode_i32;
use entity_store::store::{DataStore, GcPolicy, StoreError, StoreEventKind, TimeEntry};

fn position(x: i32, y: i32, z: i32) -> DataCell {
    DataCell::new("Position".to_string(), encode_i32(&vec![x, y, z]))
}

fn at(timeline: &str, time: i64) -> Vec<TimeEntry> {
    vec![TimeEntry { timeline: timeline.to_string(), time }]
}

fn robot() -> String {
    "/robot".to_string()
}

fn frame() -> String {
    "frame".to_string()
}

fn comps(names: &[&str]) -> Vec<String> {
    names.iter().map(|n| n.to_string()).collect()
}

#[test]
fn equal_times_highest_row_id_wins() {
    let mut store = DataStore::new();
    store.insert(&robot(), 1, &at("frame", 10), &vec![position(1, 2, 3)]).unwrap();
    store.insert(&robot(), 2, &at("frame", 10), &vec![position(4, 5, 6)]).unwrap();
    let r = store.query_latest_at(&robot(), &frame(), 10, &comps(&["Position"]));
    assert_eq!(r.len(), 1);
    let hit = r[0].as_ref().unwrap();
    assert_eq!(hit.row_id, 2);
    assert_eq!(hit.time, Some(10));
    assert_eq!(hit.bytes, encode_i32(&vec![4, 5, 6]));
}

#[test]
fn range_orders_by_time_then_row_id() {
    let mut store = DataStore::new();
    store.insert(&robot(), 1, &at("frame", 10), &vec![position(1, 2, 3)]).unwrap();
    store.insert(&robot(), 2, &at("frame", 10), &vec![position(4, 5, 6)]).unwrap();
    store.insert(&robot(), 3, &at("frame", 5), &vec![position(0, 0, 0)]).unwrap();
    let rows = store.query_range(&robot(), &frame(), 0, 10, &comps(&["Position"]));
    let ids: Vec<(u64, i64)> = rows.iter().map(|r| (r.row_id, r.time)).collect();
    assert_eq!(ids, vec![(3, 5), (1, 10), (2, 10)]);
    assert_eq!(rows[0].cells, vec![Some(encode_i32(&vec![0, 0, 0]))]);
    // Re-issuing the same query replays identically.
    let again = store.query_range(&robot(), &frame(), 0, 10, &comps(&["Position"]));
    let ids_again: Vec<(u64, i64)> = again.iter().map(|r| (r.row_id, r.time)).collect();
    assert_eq!(ids, ids_again);
}

#[test]
fn range_round_trip_returns_every_row_once() {
    let mut store = DataStore::new();
    let times = [7i64, 3, 9, 3, 1, 8];
    for (i, t) in times.iter().enumerate() {
        store.insert(&robot(), (i + 1) as u64, &at("frame", *t), &vec![position(i as i32, 0, 0)]).unwrap();
    }
    let rows = store.query_range(&robot(), &frame(), i64::MIN, i64::MAX, &comps(&["Position"]));
    let got: Vec<(i64, u64)> = rows.iter().map(|r| (r.time, r.row_id)).collect();
    assert_eq!(got, vec![(1, 5), (3, 2), (3, 4), (7, 1), (8, 6), (9, 3)]);
}

#[test]
fn range_excludes_outside_span_and_other_components() {
    let mut store = DataStore::new();
    store.insert(&robot(), 1, &at("frame", 1), &vec![position(1, 1, 1)]).unwrap();
    store.insert(&robot(), 2, &at("frame", 5), &vec![DataCell::new("Color".to_string(), vec![9])]).unwrap();
    store.insert(&robot(), 3, &at("frame", 20), &vec![position(2, 2, 2)]).unwrap();
    let rows = store.query_range(&robot(), &frame(), 0, 10, &comps(&["Position"]));
    assert_eq!(rows.len(), 1);
    assert_eq!(rows[0].row_id, 1);
}

#[test]
fn latest_at_picks_greatest_time_not_after_query() {
    let mut store = DataStore::new();
    store.insert(&robot(), 1, &at("frame", 5), &vec![position(5, 5, 5)]).unwrap();
    store.insert(&robot(), 2, &at("frame", 15), &vec![position(15, 15, 15)]).unwrap();
    store.insert(&robot(), 3, &at("frame", 1), &vec![position(1, 1, 1)]).unwrap();
    let r = store.query_latest_at(&robot(), &frame(), 10, &comps(&["Position"]));
    assert_eq!(r[0].as_ref().unwrap().row_id, 1);
    let before_all = store.query_latest_at(&robot(), &frame(), 0, &comps(&["Position"]));
    assert!(before_all[0].is_none());
}

#[test]
fn timeless_data_is_visible_until_temporal_data_overrides() {
    let mut store = DataStore::new();
    store.insert(&robot(), 1, &vec![], &vec![position(0, 0, 0)]).unwrap();
    store.insert(&robot(), 2, &at("frame", 10), &vec![position(1, 1, 1)]).unwrap();
    let early = store.query_latest_at(&robot(), &frame(), 5, &comps(&["Position"]));
    let hit = early[0].as_ref().unwrap();
    assert_eq!(hit.row_id, 1);
    assert_eq!(hit.time, None);
    let late = store.query_latest_at(&robot(), &frame(), 10, &comps(&["Position"]));
    assert_eq!(late[0].as_ref().unwrap().row_id, 2);
    // Timeless rows are excluded from range queries.
    let rows = store.query_range(&robot(), &frame(), i64::MIN, i64::MAX, &comps(&["Position"]));
    assert_eq!(rows.len(), 1);
}

#[test]
fn unknown_component_is_absent() {
    let mut store = DataStore::new();
    store.insert(&robot(), 1, &at("frame", 1), &vec![position(1, 2, 3)]).unwrap();
    let r = store.query_latest_at(&robot(), &frame(), 1, &comps(&["Position", "Color"]));
    assert!(r[0].is_some());
    assert!(r[1].is_none());
    let other = store.query_latest_at(&"/elsewhere".to_string(), &frame(), 1, &comps(&["Position"]));
    assert!(other[0].is_none());
}

#[test]
fn duplicate_row_id_is_rejected_and_store_unchanged() {
    let mut store = DataStore::new();
    store.insert(&robot(), 7, &at("frame", 1), &vec![position(1, 2, 3)]).unwrap();
    let before = store.stats();
    let err = store.insert(&robot(), 7, &at("frame", 2), &vec![position(4, 5, 6)]);
    assert!(matches!(err, Err(StoreError::DuplicateRowId(7))));
    assert_eq!(store.stats(), before);
    let r = store.query_latest_at(&robot(), &frame(), 5, &comps(&["Position"]));
    assert_eq!(r[0].as_ref().unwrap().time, Some(1));
}

#[test]
fn insertion_event_carries_the_added_cells() {
    let mut store = DataStore::new();
    let ev = store.insert(&robot(), 4, &at("frame", 3), &vec![position(1, 2, 3)]).unwrap();
    assert_eq!(ev.kind, StoreEventKind::Insertion);
    assert_eq!(ev.entity, robot());
    assert_eq!(ev.row_id, 4);
    assert_eq!(ev.times.len(), 1);
    assert_eq!(ev.times[0].time, 3);
    assert_eq!(ev.cells.len(), 1);
    assert_eq!(ev.cells[0].bytes, encode_i32(&vec![1, 2, 3]));
}

#[test]
fn repeated_timeline_in_time_point_uses_last_entry() {
    let mut store = DataStore::new();
    let tp = vec![
        TimeEntry { timeline: "frame".to_string(), time: 1 },
        TimeEntry { timeline: "frame".to_string(), time: 9 },
    ];
    store.insert(&robot(), 1, &tp, &vec![position(1, 2, 3)]).unwrap();
    let rows = store.query_range(&robot(), &frame(), i64::MIN, i64::MAX, &comps(&["Position"]));
    assert_eq!(rows.len(), 1);
    assert_eq!(rows[0].time, 9);
    assert_eq!(store.stats().temporal.num_rows, 1);
}

#[test]
fn stats_count_rows_and_bytes_per_partition() {
    let mut store = DataStore::new();
    store.insert(&robot(), 1, &vec![], &vec![position(0, 0, 0)]).unwrap();
    let two = vec![
        TimeEntry { timeline: "frame".to_string(), time: 1 },
        TimeEntry { timeline: "log_time".to_string(), time: 100 },
    ];
    store.insert(&robot(), 2, &two, &vec![position(1, 1, 1), DataCell::new("Color".to_string(), vec![1, 2])]).unwrap();
    let s = store.stats();
    assert_eq!(s.timeless.num_rows, 1);
    assert_eq!(s.timeless.num_bytes, 12);
    assert_eq!(s.temporal.num_rows, 2);
    assert_eq!(s.temporal.num_bytes, 28);
    assert_eq!(s.total.num_rows, 3);
    assert_eq!(s.total.num_bytes, 40);
}

#[test]
fn stats_twice_without_mutation_are_identical() {
    let mut store = DataStore::new();
    store.insert(&robot(), 1, &at("frame", 1), &vec![position(1, 2, 3)]).unwrap();
    let a = store.stats();
    let b = store.stats();
    assert_eq!(a, b);
}

#[test]
fn gc_evicts_oldest_first_within_budget() {
    let mut store = DataStore::new();
    for i in 0..5u64 {
        store.insert(&robot(), i + 1, &at("frame", i as i64), &vec![position(i as i32, 0, 0)]).unwrap();
    }
    let report = store.garbage_collect(&GcPolicy { max_rows: 2, max_bytes: u64::MAX });
    assert_eq!(report.num_rows_removed, 3);
    assert_eq!(report.num_bytes_removed, 36);
    assert_eq!(report.events.len(), 3);
    let evicted: Vec<u64> = report.events.iter().map(|e| e.row_id).collect();
    assert_eq!(evicted, vec![1, 2, 3]);
    assert!(report.events.iter().all(|e| e.kind == StoreEventKind::Eviction));
    let rows = store.query_range(&robot(), &frame(), i64::MIN, i64::MAX, &comps(&["Position"]));
    let ids: Vec<u64> = rows.iter().map(|r| r.row_id).collect();
    assert_eq!(ids, vec![4, 5]);
    assert_eq!(store.stats().temporal.num_rows, 2);
}

#[test]
fn gc_byte_budget_is_met() {
    let mut store = DataStore::new();
    for i in 0..4u64 {
        store.insert(&robot(), i + 1, &at("frame", i as i64), &vec![position(1, 2, 3)]).unwrap();
    }
    store.garbage_collect(&GcPolicy { max_rows: u64::MAX, max_bytes: 24 });
    assert!(store.stats().temporal.num_bytes <= 24);
    assert_eq!(store.stats().temporal.num_rows, 2);
}

#[test]
fn gc_keeps_most_recent_row_of_each_component() {
    let mut store = DataStore::new();
    store.insert(&robot(), 1, &at("frame", 1), &vec![DataCell::new("Color".to_string(), vec![7])]).unwrap();
    store.insert(&robot(), 2, &at("frame", 2), &vec![position(1, 1, 1)]).unwrap();
    store.insert(&robot(), 3, &at("frame", 3), &vec![position(2, 2, 2)]).unwrap();
    let report = store.garbage_collect(&GcPolicy { max_rows: 0, max_bytes: 0 });
    // The oldest row holds the only Color: it is pinned, so nothing goes.
    assert_eq!(report.num_rows_removed, 0);
    let color = store.query_latest_at(&robot(), &frame(), i64::MAX, &comps(&["Color", "Position"]));
    assert_eq!(color[0].as_ref().unwrap().row_id, 1);
    assert_eq!(color[1].as_ref().unwrap().row_id, 3);
}

#[test]
fn gc_leaves_timeless_data() {
    let mut store = DataStore::new();
    store.insert(&robot(), 1, &vec![], &vec![position(0, 0, 0)]).unwrap();
    store.insert(&robot(), 2, &at("frame", 1), &vec![position(1, 1, 1)]).unwrap();
    store.insert(&robot(), 3, &at("frame", 2), &vec![position(2, 2, 2)]).unwrap();
    store.garbage_collect(&GcPolicy { max_rows: 1, max_bytes: u64::MAX });
    let s = store.stats();
    assert_eq!(s.timeless.num_rows, 1);
    assert_eq!(s.temporal.num_rows, 1);
    let r = store.query_latest_at(&robot(), &frame(), i64::MAX, &comps(&["Position"]));
    assert_eq!(r[0].as_ref().unwrap().row_id, 3);
}
