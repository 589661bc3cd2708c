use entity_store::cache::QueryCache;
use entity_store::cell::DataCell;
use entity_store::codec::{encode_i32, CodecRegistry, ColumnCodec};
use entity_store::context::StoreContext;
use entity_store::filter::diff_component_filter;
use entity_store::row_id::RowIdAllocator;
use entity_store::store::{DataStore, TimeEntry};
use entity_store::text_log::TextLogSystem;

fn at(time: i64) -> Vec<TimeEntry> {
    vec![TimeEntry { timeline: "frame".to_string(), time }]
}

fn s(v: &str) -> String {
    v.to_string()
}

#[test]
fn row_ids_strictly_increase() {
    let mut a = RowIdAllocator::new();
    let x = a.next_id().unwrap();
    let y = a.next_id().unwrap();
    let z = a.next_id().unwrap();
    assert!(x < y && y < z);
    let mut last = RowIdAllocator { next: u64::MAX };
    assert_eq!(last.next_id(), None);
}

#[test]
fn allocated_ids_are_accepted_by_the_store() {
    let mut a = RowIdAllocator::new();
    let mut store = DataStore::new();
    for t in 0..3 {
        let id = a.next_id().unwrap();
        store.insert(&s("/e"), id, &at(t), &vec![DataCell::new(s("Label"), vec![1])]).unwrap();
    }
    assert_eq!(store.stats().temporal.num_rows, 3);
}

#[test]
fn diff_filter_matches_component_values() {
    let mut store = DataStore::new();
    let ev = store
        .insert(
            &s("/e"),
            1,
            &at(1),
            &vec![
                DataCell::new(s("Level"), encode_i32(&vec![3, 9])),
                DataCell::new(s("Other"), encode_i32(&vec![100])),
            ],
        )
        .unwrap();
    assert!(diff_component_filter(&ev, &s("Level"), |v: i32| v > 5));
    assert!(!diff_component_filter(&ev, &s("Level"), |v: i32| v > 50));
    assert!(!diff_component_filter(&ev, &s("Missing"), |_v: i32| true));
    assert!(diff_component_filter(&ev, &s("Other"), |v: i32| v == 100));
}

#[test]
fn diff_filter_undecodable_cell_matches_nothing() {
    let mut store = DataStore::new();
    let ev = store.insert(&s("/e"), 1, &at(1), &vec![DataCell::new(s("Level"), vec![1, 2, 3])]).unwrap();
    assert!(!diff_component_filter(&ev, &s("Level"), |_v: i32| true));
}

#[test]
fn text_log_collects_rows_with_a_body() {
    let mut ctx = StoreContext::new(CodecRegistry::new());
    let text = s("rerun.components.Text");
    let level = s("rerun.components.TextLogLevel");
    let color = s("rerun.components.Color");
    ctx.insert(&s("/logs"), 1, &at(2), &vec![DataCell::new(text.clone(), b"second".to_vec()), DataCell::new(level.clone(), b"WARN".to_vec())]).unwrap();
    ctx.insert(&s("/logs"), 2, &at(1), &vec![DataCell::new(text.clone(), b"first".to_vec()), DataCell::new(color.clone(), vec![255, 0, 0, 255])]).unwrap();
    ctx.insert(&s("/logs"), 3, &at(3), &vec![DataCell::new(level.clone(), b"INFO".to_vec())]).unwrap();
    ctx.insert(&s("/other"), 4, &at(0), &vec![DataCell::new(text.clone(), b"elsewhere".to_vec())]).unwrap();
    let mut sys = TextLogSystem::new();
    sys.execute(&mut ctx, &s("frame"), &vec![s("/logs"), s("/other")]);
    assert_eq!(sys.entries.len(), 3);
    assert_eq!(sys.entries[0].body, b"first".to_vec());
    assert_eq!(sys.entries[0].color, Some(vec![255, 0, 0, 255]));
    assert_eq!(sys.entries[0].level, None);
    assert_eq!(sys.entries[0].time, Some(1));
    assert_eq!(sys.entries[1].body, b"second".to_vec());
    assert_eq!(sys.entries[1].level, Some(b"WARN".to_vec()));
    assert_eq!(sys.entries[1].row_id, 1);
    assert_eq!(sys.entries[2].entity_path, s("/other"));
}

#[test]
fn text_log_goes_through_the_cache() {
    let mut ctx = StoreContext::new(CodecRegistry::new());
    let text = s("rerun.components.Text");
    ctx.insert(&s("/robot"), 1, &at(10), &vec![DataCell::new(text.clone(), b"a".to_vec())]).unwrap();
    ctx.insert(&s("/robot2"), 2, &at(10), &vec![DataCell::new(text.clone(), b"b".to_vec())]).unwrap();
    let visible = vec![s("/robot"), s("/robot2")];
    let mut sys = TextLogSystem::new();
    sys.execute(&mut ctx, &s("frame"), &visible);
    assert_eq!(ctx.cache.misses, 2);
    assert_eq!(ctx.cache.hits, 0);
    let before_robot2: Vec<u64> = sys.entries.iter().filter(|e| e.entity_path == s("/robot2")).map(|e| e.row_id).collect();

    ctx.insert(&s("/robot"), 3, &at(50), &vec![DataCell::new(text.clone(), b"new".to_vec())]).unwrap();
    sys.entries.clear();
    sys.execute(&mut ctx, &s("frame"), &visible);
    assert_eq!(ctx.cache.misses, 3);
    assert_eq!(ctx.cache.hits, 1);
    let robot: Vec<(u64, Option<i64>, Vec<u8>)> = sys.entries.iter().filter(|e| e.entity_path == s("/robot")).map(|e| (e.row_id, e.time, e.body.clone())).collect();
    assert_eq!(robot, vec![(1, Some(10), b"a".to_vec()), (3, Some(50), b"new".to_vec())]);
    let direct = ctx.store.query_range(&s("/robot"), &s("frame"), i64::MIN, i64::MAX, &vec![text.clone()]);
    assert_eq!(direct.iter().map(|r| r.row_id).collect::<Vec<_>>(), vec![1, 3]);
    let after_robot2: Vec<u64> = sys.entries.iter().filter(|e| e.entity_path == s("/robot2")).map(|e| e.row_id).collect();
    assert_eq!(before_robot2, after_robot2);
}

#[test]
fn text_log_names() {
    assert_eq!(TextLogSystem::identifier(), "TextLog");
    assert_eq!(TextLogSystem::required_components(), vec![s("rerun.components.Text")]);
    assert_eq!(TextLogSystem::indicator_components(), vec![s("rerun.components.TextLogIndicator")]);
}

#[test]
fn cache_stats_per_entity_and_detailed() {
    let mut registry = CodecRegistry::new();
    registry.register(s("Position"), ColumnCodec::I32);
    registry.register(s("Label"), ColumnCodec::Bytes);
    let mut ctx = StoreContext::new(registry);
    ctx.insert(&s("/a"), 1, &at(1), &vec![DataCell::new(s("Position"), encode_i32(&vec![1, 2, 3])), DataCell::new(s("Label"), vec![7, 7])]).unwrap();
    ctx.insert(&s("/b"), 2, &at(1), &vec![DataCell::new(s("Position"), encode_i32(&vec![4]))]).unwrap();
    ctx.latest_at(&s("/a"), &s("frame"), 5, &s("Position"));
    ctx.latest_at(&s("/a"), &s("frame"), 6, &s("Position"));
    ctx.latest_at(&s("/a"), &s("frame"), 5, &s("Label"));
    ctx.latest_at(&s("/b"), &s("frame"), 0, &s("Position"));

    let plain = ctx.cache.stats(false, true);
    assert_eq!(plain.latest_at.len(), 2);
    let a = &plain.latest_at[0];
    assert_eq!(a.entity, s("/a"));
    assert_eq!(a.total_rows, 3);
    assert_eq!(a.total_size_bytes, 12 + 12 + 2);
    assert!(a.per_component.is_none());
    let b = &plain.latest_at[1];
    assert_eq!(b.entity, s("/b"));
    assert!(b.is_empty());
    assert_eq!(plain.total_size_bytes(), 26);

    let detailed = ctx.cache.stats(true, true);
    assert_eq!(detailed.latest_at.len(), 2);
    let per = detailed.latest_at[0].per_component.as_ref().unwrap();
    assert_eq!(per.len(), 2);
    assert_eq!(per[0].component, s("Position"));
    assert_eq!(per[0].total_rows, 2);
    assert_eq!(per[0].total_instances, 6);
    assert_eq!(per[1].component, s("Label"));
    assert_eq!(per[1].total_instances, 2);
}

#[test]
fn empty_cache_has_no_stats() {
    let cache = QueryCache::new(CodecRegistry::new());
    let st = cache.stats(true, false);
    assert!(st.latest_at.is_empty());
    assert_eq!(st.total_size_bytes(), 0);
}

#[test]
fn cache_stats_hide_empty_entities() {
    let mut registry = CodecRegistry::new();
    registry.register(s("Position"), ColumnCodec::I32);
    let mut ctx = StoreContext::new(registry);
    ctx.insert(&s("/a"), 1, &at(1), &vec![DataCell::new(s("Position"), encode_i32(&vec![1]))]).unwrap();
    ctx.latest_at(&s("/a"), &s("frame"), 5, &s("Position"));
    ctx.latest_at(&s("/b"), &s("frame"), 5, &s("Position"));
    let hidden = ctx.cache.stats(false, false);
    assert_eq!(hidden.latest_at.len(), 1);
    assert_eq!(hidden.latest_at[0].entity, s("/a"));
    let shown = ctx.cache.stats(false, true);
    assert_eq!(shown.latest_at.len(), 2);
    assert!(shown.latest_at[1].is_empty());
}

#[test]
fn cache_stats_have_one_line_per_range_entry() {
    let mut ctx = StoreContext::new(CodecRegistry::new());
    ctx.insert(&s("/a"), 1, &at(1), &vec![DataCell::new(s("Label"), vec![1, 2, 3])]).unwrap();
    ctx.insert(&s("/a"), 2, &at(2), &vec![DataCell::new(s("Label"), vec![4])]).unwrap();
    ctx.range(&s("/a"), &s("frame"), 0, 10, &vec![s("Label")]);
    ctx.range(&s("/a"), &s("frame"), 100, 200, &vec![s("Label")]);
    let shown = ctx.cache.stats(false, true);
    assert_eq!(shown.range.len(), 2);
    let line = &shown.range[0];
    assert_eq!(line.entity, s("/a"));
    assert_eq!(line.timeline, s("frame"));
    assert_eq!((line.lo, line.hi), (0, 10));
    assert_eq!(line.total_rows, 2);
    assert_eq!(line.total_size_bytes, 4);
    assert_eq!(shown.range[1].total_rows, 0);
    assert_eq!(shown.total_size_bytes(), 4);
    let hidden = ctx.cache.stats(false, false);
    assert_eq!(hidden.range.len(), 1);
    assert_eq!(hidden.range[0].hi, 10);
}
