use entity_store::cache::CachedComponent;
use entity_store::cell::DataCell;
use entity_store::codec::{encode_i32, CodecRegistry, ColumnCodec, ColumnData, DecodeError};
use entity_store::context::StoreContext;
use entity_store::store::{GcPolicy, TimeEntry};

fn position(x: i32, y: i32, z: i32) -> DataCell {
    DataCell::new("Position".to_string(), encode_i32(&vec![x, y, z]))
}

fn at(time: i64) -> Vec<TimeEntry> {
    vec![TimeEntry { timeline: "frame".to_string(), time }]
}

fn context() -> StoreContext {
    let mut registry = CodecRegistry::new();
    registry.register("Position".to_string(), ColumnCodec::I32);
    registry.register("Label".to_string(), ColumnCodec::Bytes);
    StoreContext::new(registry)
}

fn s(v: &str) -> String {
    v.to_string()
}

fn decoded_i32(c: &CachedComponent) -> Vec<i32> {
    match c {
        CachedComponent::Decoded { data: ColumnData::I32(v), .. } => v.clone(),
        _ => panic!("not a decoded i32 column"),
    }
}

#[test]
fn insert_invalidates_only_touched_entries() {
    let mut ctx = context();
    ctx.insert(&s("/robot"), 1, &at(10), &vec![position(1, 2, 3)]).unwrap();
    ctx.insert(&s("/robot2"), 2, &at(10), &vec![position(7, 7, 7)]).unwrap();
    let first = ctx.latest_at(&s("/robot"), &s("frame"), 100, &s("Position"));
    assert_eq!(decoded_i32(&first), vec![1, 2, 3]);
    ctx.latest_at(&s("/robot2"), &s("frame"), 100, &s("Position"));
    assert_eq!(ctx.cache.misses, 2);
    assert_eq!(ctx.cache.hits, 0);

    ctx.insert(&s("/robot"), 3, &at(50), &vec![position(4, 5, 6)]).unwrap();

    let again = ctx.latest_at(&s("/robot"), &s("frame"), 100, &s("Position"));
    assert_eq!(decoded_i32(&again), vec![4, 5, 6]);
    assert_eq!(ctx.cache.misses, 3);
    assert_eq!(ctx.cache.hits, 0);

    let other = ctx.latest_at(&s("/robot2"), &s("frame"), 100, &s("Position"));
    assert_eq!(decoded_i32(&other), vec![7, 7, 7]);
    assert_eq!(ctx.cache.hits, 1);
    assert_eq!(ctx.cache.misses, 3);
}

#[test]
fn cached_answer_matches_uncached_store_query() {
    let mut ctx = context();
    ctx.insert(&s("/robot"), 1, &at(5), &vec![position(1, 1, 1)]).unwrap();
    ctx.latest_at(&s("/robot"), &s("frame"), 20, &s("Position"));
    ctx.insert(&s("/robot"), 2, &at(15), &vec![position(2, 2, 2)]).unwrap();
    let cached = ctx.latest_at(&s("/robot"), &s("frame"), 20, &s("Position"));
    let direct = ctx.store.query_latest_at(&s("/robot"), &s("frame"), 20, &vec![s("Position")]);
    let hit = direct[0].as_ref().unwrap();
    match &cached {
        CachedComponent::Decoded { row_id, time, .. } => {
            assert_eq!(*row_id, hit.row_id);
            assert_eq!(*time, hit.time);
        }
        _ => panic!("expected a decoded answer"),
    }
    assert_eq!(decoded_i32(&cached), vec![2, 2, 2]);
}

#[test]
fn later_insert_leaves_earlier_query_cached() {
    let mut ctx = context();
    ctx.insert(&s("/robot"), 1, &at(5), &vec![position(1, 1, 1)]).unwrap();
    ctx.latest_at(&s("/robot"), &s("frame"), 10, &s("Position"));
    ctx.insert(&s("/robot"), 2, &at(30), &vec![position(2, 2, 2)]).unwrap();
    let r = ctx.latest_at(&s("/robot"), &s("frame"), 10, &s("Position"));
    assert_eq!(ctx.cache.hits, 1);
    assert_eq!(decoded_i32(&r), vec![1, 1, 1]);
}

#[test]
fn insert_of_other_component_keeps_entry() {
    let mut ctx = context();
    ctx.insert(&s("/robot"), 1, &at(5), &vec![position(1, 1, 1)]).unwrap();
    ctx.latest_at(&s("/robot"), &s("frame"), 10, &s("Position"));
    ctx.insert(&s("/robot"), 2, &at(6), &vec![DataCell::new(s("Label"), vec![104, 105])]).unwrap();
    ctx.latest_at(&s("/robot"), &s("frame"), 10, &s("Position"));
    assert_eq!(ctx.cache.hits, 1);
    let label = ctx.latest_at(&s("/robot"), &s("frame"), 10, &s("Label"));
    match label {
        CachedComponent::Decoded { data: ColumnData::Bytes(b), .. } => assert_eq!(b, vec![104, 105]),
        _ => panic!("expected bytes"),
    }
}

#[test]
fn decode_error_is_reported_per_component() {
    let mut ctx = context();
    ctx.insert(
        &s("/robot"),
        1,
        &at(1),
        &vec![DataCell::new(s("Position"), vec![1, 2, 3]), DataCell::new(s("Label"), vec![65])],
    )
    .unwrap();
    let bad = ctx.latest_at(&s("/robot"), &s("frame"), 1, &s("Position"));
    assert!(matches!(bad, CachedComponent::Failed(DecodeError::BadLength { len: 3, width: 4 })));
    let good = ctx.latest_at(&s("/robot"), &s("frame"), 1, &s("Label"));
    assert!(matches!(good, CachedComponent::Decoded { .. }));
}

#[test]
fn unregistered_component_is_absent() {
    let mut ctx = context();
    ctx.insert(&s("/robot"), 1, &at(1), &vec![DataCell::new(s("Mystery"), vec![1])]).unwrap();
    let r = ctx.latest_at(&s("/robot"), &s("frame"), 1, &s("Mystery"));
    assert!(matches!(r, CachedComponent::Absent));
    let none = ctx.latest_at(&s("/robot"), &s("frame"), 1, &s("Position"));
    assert!(matches!(none, CachedComponent::Absent));
}

#[test]
fn gc_invalidates_entries_of_evicted_rows() {
    let mut ctx = context();
    ctx.insert(&s("/robot"), 1, &at(1), &vec![position(1, 1, 1)]).unwrap();
    ctx.insert(&s("/robot"), 2, &at(2), &vec![position(2, 2, 2)]).unwrap();
    let old = ctx.latest_at(&s("/robot"), &s("frame"), 1, &s("Position"));
    assert_eq!(decoded_i32(&old), vec![1, 1, 1]);
    ctx.latest_at(&s("/robot"), &s("frame"), 5, &s("Position"));
    let report = ctx.garbage_collect(&GcPolicy { max_rows: 1, max_bytes: u64::MAX });
    assert_eq!(report.num_rows_removed, 1);
    let misses = ctx.cache.misses;
    let gone = ctx.latest_at(&s("/robot"), &s("frame"), 1, &s("Position"));
    assert!(matches!(gone, CachedComponent::Absent));
    assert_eq!(ctx.cache.misses, misses + 1);
    // The evicted row lay at or before time 5, so that entry was dropped too.
    let kept = ctx.latest_at(&s("/robot"), &s("frame"), 5, &s("Position"));
    assert_eq!(decoded_i32(&kept), vec![2, 2, 2]);
    assert_eq!(ctx.cache.misses, misses + 2);
}

#[test]
fn stats_through_context_match_store() {
    let mut ctx = context();
    ctx.insert(&s("/robot"), 1, &at(1), &vec![position(1, 1, 1)]).unwrap();
    assert_eq!(ctx.stats(), ctx.store.stats());
    assert_eq!(ctx.stats().total.num_rows, 1);
}

fn ids(rows: &[entity_store::index::RangeRow]) -> Vec<u64> {
    rows.iter().map(|r| r.row_id).collect()
}

#[test]
fn range_cache_hits_and_invalidates_on_overlap() {
    let mut ctx = context();
    let comps = vec![s("Position")];
    ctx.insert(&s("/robot"), 1, &at(10), &vec![position(1, 2, 3)]).unwrap();
    ctx.insert(&s("/robot"), 2, &at(10), &vec![position(4, 5, 6)]).unwrap();
    ctx.insert(&s("/robot"), 3, &at(5), &vec![position(0, 0, 0)]).unwrap();
    let first = ctx.range(&s("/robot"), &s("frame"), 0, 10, &comps);
    assert_eq!(ids(&first), vec![3, 1, 2]);
    assert_eq!(ctx.cache.misses, 1);
    let again = ctx.range(&s("/robot"), &s("frame"), 0, 10, &comps);
    assert_eq!(ids(&again), vec![3, 1, 2]);
    assert_eq!(ctx.cache.hits, 1);

    // Outside the span: the entry stays.
    ctx.insert(&s("/robot"), 4, &at(50), &vec![position(9, 9, 9)]).unwrap();
    ctx.range(&s("/robot"), &s("frame"), 0, 10, &comps);
    assert_eq!(ctx.cache.hits, 2);

    // Inside the span: recomputed, with the new row.
    ctx.insert(&s("/robot"), 5, &at(7), &vec![position(7, 7, 7)]).unwrap();
    let updated = ctx.range(&s("/robot"), &s("frame"), 0, 10, &comps);
    assert_eq!(ids(&updated), vec![3, 5, 1, 2]);
    assert_eq!(ctx.cache.misses, 2);
    let direct = ctx.store.query_range(&s("/robot"), &s("frame"), 0, 10, &comps);
    assert_eq!(ids(&direct), ids(&updated));
}

#[test]
fn range_cache_ignores_timeless_inserts() {
    let mut ctx = context();
    let comps = vec![s("Position")];
    ctx.insert(&s("/robot"), 1, &at(1), &vec![position(1, 1, 1)]).unwrap();
    ctx.range(&s("/robot"), &s("frame"), 0, 10, &comps);
    ctx.insert(&s("/robot"), 2, &vec![], &vec![position(2, 2, 2)]).unwrap();
    let r = ctx.range(&s("/robot"), &s("frame"), 0, 10, &comps);
    assert_eq!(ids(&r), vec![1]);
    assert_eq!(ctx.cache.hits, 1);
}

#[test]
fn range_cache_invalidated_by_gc() {
    let mut ctx = context();
    let comps = vec![s("Position")];
    for i in 0..3u64 {
        ctx.insert(&s("/robot"), i + 1, &at(i as i64), &vec![position(i as i32, 0, 0)]).unwrap();
    }
    ctx.range(&s("/robot"), &s("frame"), 0, 10, &comps);
    ctx.garbage_collect(&GcPolicy { max_rows: 1, max_bytes: u64::MAX });
    let r = ctx.range(&s("/robot"), &s("frame"), 0, 10, &comps);
    assert_eq!(ids(&r), vec![3]);
    assert_eq!(ctx.cache.misses, 2);
}
