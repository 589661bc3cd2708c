use vstd::prelude::*;
use crate::codec::{ColumnCodec, ColumnData, ColumnDataView, CodecRegistry, DecodeError, decode, decode_spec};
use crate::index::{RangeRow, opt_bytes_view, range_rows_view, strings_view};
use crate::store::{DataStore, HitView, StoreEvent};

verus! {

/// The shape of one latest-at query for one component.
pub struct LatestAtKey {
    pub entity: String,
    pub timeline: String,
    pub time: i64,
    pub component: String,
}

/// A component's decoded latest-at answer.
pub enum CachedComponent {
    /// No data, or no codec registered for the component.
    Absent,
    Decoded { row_id: u64, time: Option<i64>, data: ColumnData },
    /// The stored cell could not be decoded.
    Failed(DecodeError),
}

pub ghost enum CachedComponentView {
    Absent,
    Decoded { row_id: u64, time: Option<i64>, data: ColumnDataView },
    Failed(DecodeError),
}

impl View for CachedComponent {
    type V = CachedComponentView;

    open spec fn view(&self) -> CachedComponentView {
        match self {
            CachedComponent::Absent => CachedComponentView::Absent,
            CachedComponent::Decoded { row_id, time, data } => CachedComponentView::Decoded { row_id: *row_id, time: *time, data: data@ },
            CachedComponent::Failed(e) => CachedComponentView::Failed(*e),
        }
    }
}

/// What a store's latest-at answer decodes to with `codec`.
pub open spec fn resolve(codec: Option<ColumnCodec>, hit: Option<HitView>) -> CachedComponentView {
    match hit {
        None => CachedComponentView::Absent,
        Some(h) => match codec {
            None => CachedComponentView::Absent,
            Some(cd) => match decode_spec(cd, h.bytes) {
                Ok(d) => CachedComponentView::Decoded { row_id: h.row_id, time: h.time, data: d },
                Err(e) => CachedComponentView::Failed(e),
            },
        },
    }
}

pub struct CacheEntry {
    pub key: LatestAtKey,
    pub value: CachedComponent,
}

/// The shape of one range query.
pub struct RangeKey {
    pub entity: String,
    pub timeline: String,
    pub lo: i64,
    pub hi: i64,
    pub components: Vec<String>,
}

pub struct RangeCacheEntry {
    pub key: RangeKey,
    pub rows: Vec<RangeRow>,
}

/// Memoized latest-at answers, decoded, and range answers, with hit and
/// miss counters over both.
pub struct QueryCache {
    pub registry: CodecRegistry,
    pub entries: Vec<CacheEntry>,
    pub range_entries: Vec<RangeCacheEntry>,
    pub hits: u64,
    pub misses: u64,
}

pub open spec fn range_entry_matches(en: RangeCacheEntry, store: DataStore) -> bool {
    range_rows_view(en.rows@) == store.range_view(en.key.entity@, en.key.timeline@, en.key.lo, en.key.hi, strings_view(en.key.components@))
}

pub open spec fn range_key_is(k: RangeKey, entity: Seq<char>, timeline: Seq<char>, lo: i64, hi: i64, components: Seq<Seq<char>>) -> bool {
    k.entity@ == entity && k.timeline@ == timeline && k.lo == lo && k.hi == hi && strings_view(k.components@) == components
}

pub open spec fn range_touched(ev: StoreEvent, k: RangeKey) -> bool {
    ev.touches_range(k.entity@, k.timeline@, k.lo, k.hi, strings_view(k.components@))
}

fn strings_eq(a: &Vec<String>, b: &Vec<String>) -> (r: bool)
    ensures
        r == (strings_view(a@) == strings_view(b@)),
{
    if a.len() != b.len() {
        assert(strings_view(a@).len() != strings_view(b@).len());
        return false;
    }
    let mut i: usize = 0;
    while i < a.len()
        invariant
            i <= a@.len(),
            a@.len() == b@.len(),
            forall|k: int| 0 <= k < i ==> a@[k]@ == b@[k]@,
        decreases a@.len() - i,
    {
        if !(a[i] == b[i]) {
            assert(strings_view(a@)[i as int] != strings_view(b@)[i as int]);
            return false;
        }
        i += 1;
    }
    assert(strings_view(a@) =~= strings_view(b@));
    true
}

fn clone_strings(v: &Vec<String>) -> (r: Vec<String>)
    ensures
        strings_view(r@) == strings_view(v@),
{
    let mut out: Vec<String> = Vec::new();
    let mut i: usize = 0;
    while i < v.len()
        invariant
            i <= v@.len(),
            out@.len() == i,
            forall|k: int| 0 <= k < i ==> out@[k]@ == v@[k]@,
        decreases v@.len() - i,
    {
        out.push(v[i].clone());
        i += 1;
    }
    assert(strings_view(out@) =~= strings_view(v@));
    out
}

fn clone_range_rows(v: &Vec<RangeRow>) -> (r: Vec<RangeRow>)
    ensures
        range_rows_view(r@) == range_rows_view(v@),
{
    let mut out: Vec<RangeRow> = Vec::new();
    let mut i: usize = 0;
    while i < v.len()
        invariant
            i <= v@.len(),
            out@.len() == i,
            forall|k: int| 0 <= k < i ==> out@[k]@ == v@[k]@,
        decreases v@.len() - i,
    {
        let row = &v[i];
        let mut cells: Vec<Option<Vec<u8>>> = Vec::new();
        let mut j: usize = 0;
        while j < row.cells.len()
            invariant
                j <= row.cells@.len(),
                cells@.len() == j,
                forall|k: int| 0 <= k < j ==> opt_bytes_view(cells@[k]) == opt_bytes_view(row.cells@[k]),
            decreases row.cells@.len() - j,
        {
            let c = match &row.cells[j] {
                Some(b) => Some(b.clone()),
                None => None,
            };
            cells.push(c);
            j += 1;
        }
        let copy = RangeRow { row_id: row.row_id, time: row.time, cells };
        assert(copy@.cells =~= row@.cells);
        out.push(copy);
        i += 1;
    }
    assert(range_rows_view(out@) =~= range_rows_view(v@));
    out
}

pub open spec fn entry_matches(en: CacheEntry, registry: CodecRegistry, store: DataStore) -> bool {
    en.value@ == resolve(
        registry.codec_for(en.key.component@),
        store.latest_at_view(en.key.entity@, en.key.timeline@, en.key.time, en.key.component@),
    )
}

pub open spec fn key_is(k: LatestAtKey, entity: Seq<char>, timeline: Seq<char>, time: i64, component: Seq<char>) -> bool {
    k.entity@ == entity && k.timeline@ == timeline && k.time == time && k.component@ == component
}

pub open spec fn saturating_inc(n: u64) -> u64 {
    if n < u64::MAX { (n + 1) as u64 } else { n }
}

fn clone_data(d: &ColumnData) -> (r: ColumnData)
    ensures
        r@ == d@,
{
    match d {
        ColumnData::Bytes(b) => ColumnData::Bytes(b.clone()),
        ColumnData::I32(v) => ColumnData::I32(v.clone()),
    }
}

fn clone_component(c: &CachedComponent) -> (r: CachedComponent)
    ensures
        r@ == c@,
{
    match c {
        CachedComponent::Absent => CachedComponent::Absent,
        CachedComponent::Decoded { row_id, time, data } => CachedComponent::Decoded { row_id: *row_id, time: *time, data: clone_data(data) },
        CachedComponent::Failed(e) => CachedComponent::Failed(*e),
    }
}

fn inc(n: u64) -> (r: u64)
    ensures
        r == saturating_inc(n),
{
    if n < u64::MAX { n + 1 } else { n }
}

impl QueryCache {
    /// Every entry holds what the store answers now for its key.
    pub open spec fn coherent(&self, store: DataStore) -> bool {
        &&& forall|i: int| 0 <= i < self.entries@.len() ==> #[trigger] entry_matches(self.entries@[i], self.registry, store)
        &&& forall|i: int| 0 <= i < self.range_entries@.len() ==> #[trigger] range_entry_matches(self.range_entries@[i], store)
    }

    pub fn new(registry: CodecRegistry) -> (r: QueryCache)
        ensures
            r.entries@.len() == 0,
            r.range_entries@.len() == 0,
            r.registry == registry,
            r.hits == 0,
            r.misses == 0,
    {
        QueryCache { registry, entries: Vec::new(), range_entries: Vec::new(), hits: 0, misses: 0 }
    }

    fn find(&self, entity: &String, timeline: &String, time: i64, component: &String) -> (r: Option<usize>)
        ensures
            match r {
                Some(i) => i < self.entries@.len() && key_is(self.entries@[i as int].key, entity@, timeline@, time, component@),
                None => forall|i: int| 0 <= i < self.entries@.len() ==> !key_is(#[trigger] self.entries@[i].key, entity@, timeline@, time, component@),
            },
    {
        let mut i: usize = 0;
        while i < self.entries.len()
            invariant
                i <= self.entries@.len(),
                forall|k: int| 0 <= k < i ==> !key_is(#[trigger] self.entries@[k].key, entity@, timeline@, time, component@),
            decreases self.entries@.len() - i,
        {
            let k = &self.entries[i].key;
            if k.time == time && k.entity == *entity && k.timeline == *timeline && k.component == *component {
                return Some(i);
            }
            i += 1;
        }
        None
    }

    /// The decoded latest-at answer for `component` of `entity` at `time` on
    /// `timeline`: from the cache where it holds the key, else computed from
    /// the store, decoded through the registry and cached.
    pub fn get_or_compute_latest_at(&mut self, store: &DataStore, entity: &String, timeline: &String, time: i64, component: &String) -> (r: CachedComponent)
        requires
            store.wf(),
            old(self).coherent(*store),
        ensures
            final(self).coherent(*store),
            final(self).registry == old(self).registry,
            final(self).range_entries == old(self).range_entries,
            r@ == resolve(old(self).registry.codec_for(component@), store.latest_at_view(entity@, timeline@, time, component@)),
            (exists|i: int| 0 <= i < old(self).entries@.len() && key_is(#[trigger] old(self).entries@[i].key, entity@, timeline@, time, component@))
                ==> final(self).hits == saturating_inc(old(self).hits) && final(self).misses == old(self).misses
                    && final(self).entries == old(self).entries,
            !(exists|i: int| 0 <= i < old(self).entries@.len() && key_is(#[trigger] old(self).entries@[i].key, entity@, timeline@, time, component@))
                ==> final(self).misses == saturating_inc(old(self).misses) && final(self).hits == old(self).hits
                    && final(self).entries@.len() == old(self).entries@.len() + 1
                    && final(self).entries@.subrange(0, old(self).entries@.len() as int) == old(self).entries@,
    {
        match self.find(entity, timeline, time, component) {
            Some(i) => {
                assert(entry_matches(self.entries@[i as int], self.registry, *store));
                self.hits = inc(self.hits);
                clone_component(&self.entries[i].value)
            },
            None => {
                let hit = store.latest_at_component(entity, timeline, time, component);
                let codec = self.registry.lookup(component);
                let value = match hit {
                    None => CachedComponent::Absent,
                    Some(h) => match codec {
                        None => CachedComponent::Absent,
                        Some(cd) => match decode(cd, &h.bytes) {
                            Ok(d) => CachedComponent::Decoded { row_id: h.row_id, time: h.time, data: d },
                            Err(e) => CachedComponent::Failed(e),
                        },
                    },
                };
                let out = clone_component(&value);
                let key = LatestAtKey { entity: entity.clone(), timeline: timeline.clone(), time, component: component.clone() };
                let ghost before = self.entries@;
                self.entries.push(CacheEntry { key, value });
                self.misses = inc(self.misses);
                proof {
                    assert(self.entries@.subrange(0, before.len() as int) =~= before);
                    assert forall|i: int| 0 <= i < self.entries@.len() implies #[trigger] entry_matches(self.entries@[i], self.registry, *store) by {
                        if i < before.len() {
                            assert(self.entries@[i] == before[i]);
                        }
                    }
                }
                out
            },
        }
    }

    /// Drops exactly the entries whose answer `ev` may have changed, latest-at
    /// and range alike, and returns how many of each it dropped.
    pub fn on_store_event(&mut self, ev: &StoreEvent) -> (r: (usize, usize))
        ensures
            forall|j: int| 0 <= j < final(self).range_entries@.len() ==> old(self).range_entries@.contains(#[trigger] final(self).range_entries@[j])
                && !range_touched(*ev, final(self).range_entries@[j].key),
            forall|i: int| 0 <= i < old(self).range_entries@.len() && !range_touched(*ev, old(self).range_entries@[i].key)
                ==> final(self).range_entries@.contains(#[trigger] old(self).range_entries@[i]),
            final(self).registry == old(self).registry,
            final(self).hits == old(self).hits,
            final(self).misses == old(self).misses,
            r.0 + final(self).entries@.len() == old(self).entries@.len(),
            r.1 + final(self).range_entries@.len() == old(self).range_entries@.len(),
            forall|j: int| 0 <= j < final(self).entries@.len() ==> old(self).entries@.contains(#[trigger] final(self).entries@[j])
                && !ev.touches_latest(final(self).entries@[j].key.entity@, final(self).entries@[j].key.timeline@, final(self).entries@[j].key.time, final(self).entries@[j].key.component@),
            forall|i: int| 0 <= i < old(self).entries@.len() && !ev.touches_latest(old(self).entries@[i].key.entity@, old(self).entries@[i].key.timeline@, old(self).entries@[i].key.time, old(self).entries@[i].key.component@)
                ==> final(self).entries@.contains(#[trigger] old(self).entries@[i]),
    {
        let dropped_ranges = self.drop_touched_ranges(ev);
        let mut old_entries: Vec<CacheEntry> = Vec::new();
        std::mem::swap(&mut old_entries, &mut self.entries);
        let ghost src = old_entries@;
        let total = old_entries.len();
        let mut dropped: usize = 0;
        while old_entries.len() > 0
            invariant
                self.registry == old(self).registry,
                self.hits == old(self).hits,
                self.misses == old(self).misses,
                self.range_entries@.len() + dropped_ranges == old(self).range_entries@.len(),
                forall|j: int| 0 <= j < self.range_entries@.len() ==> old(self).range_entries@.contains(#[trigger] self.range_entries@[j])
                    && !range_touched(*ev, self.range_entries@[j].key),
                forall|i: int| 0 <= i < old(self).range_entries@.len() && !range_touched(*ev, old(self).range_entries@[i].key)
                    ==> self.range_entries@.contains(#[trigger] old(self).range_entries@[i]),
                src.len() == total,
                src.len() == old_entries@.len() + self.entries@.len() + dropped,
                old_entries@ == src.subrange(0, old_entries@.len() as int),
                forall|j: int| 0 <= j < self.entries@.len() ==> src.subrange(old_entries@.len() as int, src.len() as int).contains(#[trigger] self.entries@[j])
                    && !ev.touches_latest(self.entries@[j].key.entity@, self.entries@[j].key.timeline@, self.entries@[j].key.time, self.entries@[j].key.component@),
                forall|i: int| old_entries@.len() <= i < src.len() && !ev.touches_latest(src[i].key.entity@, src[i].key.timeline@, src[i].key.time, src[i].key.component@)
                    ==> self.entries@.contains(#[trigger] src[i]),
            decreases old_entries@.len(),
        {
            let ghost n: int = old_entries@.len() as int;
            let en = old_entries.pop().unwrap();
            let touched = crate::store::touches_latest_exec(ev, &en.key.entity, &en.key.timeline, en.key.time, &en.key.component);
            let ghost kept_before = self.entries@;
            if touched {
                dropped = dropped + 1;
            } else {
                self.entries.push(en);
            }
            proof {
                assert(old_entries@ =~= src.subrange(0, n - 1));
                assert(src[n - 1] == en);
                assert forall|j: int| 0 <= j < self.entries@.len() implies src.subrange(n - 1, src.len() as int).contains(#[trigger] self.entries@[j]) by {
                    if j < kept_before.len() {
                        assert(self.entries@[j] == kept_before[j]);
                        let x = choose|x: int| 0 <= x < src.subrange(n, src.len() as int).len() && src.subrange(n, src.len() as int)[x] == kept_before[j];
                        assert(src.subrange(n - 1, src.len() as int)[x + 1] == kept_before[j]);
                    } else {
                        assert(src.subrange(n - 1, src.len() as int)[0] == en);
                    }
                }
                assert forall|i: int| n - 1 <= i < src.len() && !ev.touches_latest(src[i].key.entity@, src[i].key.timeline@, src[i].key.time, src[i].key.component@)
                    implies self.entries@.contains(#[trigger] src[i]) by {
                    if i >= n {
                        let x = choose|x: int| 0 <= x < kept_before.len() && kept_before[x] == src[i];
                        assert(self.entries@[x] == src[i]);
                    } else {
                        assert(self.entries@[self.entries@.len() - 1] == src[i]);
                    }
                }
            }
        }
        proof {
            assert(src.subrange(0, src.len() as int) =~= src);
        }
        (dropped, dropped_ranges)
    }

    fn drop_touched_ranges(&mut self, ev: &StoreEvent) -> (r: usize)
        ensures
            final(self).registry == old(self).registry,
            final(self).hits == old(self).hits,
            final(self).misses == old(self).misses,
            final(self).entries == old(self).entries,
            r + final(self).range_entries@.len() == old(self).range_entries@.len(),
            forall|j: int| 0 <= j < final(self).range_entries@.len() ==> old(self).range_entries@.contains(#[trigger] final(self).range_entries@[j])
                && !range_touched(*ev, final(self).range_entries@[j].key),
            forall|i: int| 0 <= i < old(self).range_entries@.len() && !range_touched(*ev, old(self).range_entries@[i].key)
                ==> final(self).range_entries@.contains(#[trigger] old(self).range_entries@[i]),
    {
        let mut old_entries: Vec<RangeCacheEntry> = Vec::new();
        std::mem::swap(&mut old_entries, &mut self.range_entries);
        let ghost src = old_entries@;
        let total = old_entries.len();
        let mut dropped: usize = 0;
        while old_entries.len() > 0
            invariant
                self.registry == old(self).registry,
                self.hits == old(self).hits,
                self.misses == old(self).misses,
                self.entries == old(self).entries,
                src == old(self).range_entries@,
                src.len() == total,
                src.len() == old_entries@.len() + self.range_entries@.len() + dropped,
                old_entries@ == src.subrange(0, old_entries@.len() as int),
                forall|j: int| 0 <= j < self.range_entries@.len() ==> src.subrange(old_entries@.len() as int, src.len() as int).contains(#[trigger] self.range_entries@[j])
                    && !range_touched(*ev, self.range_entries@[j].key),
                forall|i: int| old_entries@.len() <= i < src.len() && !range_touched(*ev, src[i].key)
                    ==> self.range_entries@.contains(#[trigger] src[i]),
            decreases old_entries@.len(),
        {
            let ghost n: int = old_entries@.len() as int;
            let en = old_entries.pop().unwrap();
            let touched = crate::store::touches_range_exec(ev, &en.key.entity, &en.key.timeline, en.key.lo, en.key.hi, &en.key.components);
            let ghost kept_before = self.range_entries@;
            if touched {
                dropped = dropped + 1;
            } else {
                self.range_entries.push(en);
            }
            proof {
                assert(old_entries@ =~= src.subrange(0, n - 1));
                assert(src[n - 1] == en);
                assert forall|j: int| 0 <= j < self.range_entries@.len() implies src.subrange(n - 1, src.len() as int).contains(#[trigger] self.range_entries@[j]) by {
                    if j < kept_before.len() {
                        assert(self.range_entries@[j] == kept_before[j]);
                        let x = choose|x: int| 0 <= x < src.subrange(n, src.len() as int).len() && src.subrange(n, src.len() as int)[x] == kept_before[j];
                        assert(src.subrange(n - 1, src.len() as int)[x + 1] == kept_before[j]);
                    } else {
                        assert(src.subrange(n - 1, src.len() as int)[0] == en);
                    }
                }
                assert forall|i: int| n - 1 <= i < src.len() && !range_touched(*ev, src[i].key)
                    implies self.range_entries@.contains(#[trigger] src[i]) by {
                    if i >= n {
                        let x = choose|x: int| 0 <= x < kept_before.len() && kept_before[x] == src[i];
                        assert(self.range_entries@[x] == src[i]);
                    } else {
                        assert(self.range_entries@[self.range_entries@.len() - 1] == src[i]);
                    }
                }
            }
        }
        proof {
            assert(src.subrange(0, src.len() as int) =~= src);
        }
        dropped
    }

    fn find_range(&self, entity: &String, timeline: &String, lo: i64, hi: i64, components: &Vec<String>) -> (r: Option<usize>)
        ensures
            match r {
                Some(i) => i < self.range_entries@.len() && range_key_is(self.range_entries@[i as int].key, entity@, timeline@, lo, hi, strings_view(components@)),
                None => forall|i: int| 0 <= i < self.range_entries@.len() ==> !range_key_is(#[trigger] self.range_entries@[i].key, entity@, timeline@, lo, hi, strings_view(components@)),
            },
    {
        let mut i: usize = 0;
        while i < self.range_entries.len()
            invariant
                i <= self.range_entries@.len(),
                forall|k: int| 0 <= k < i ==> !range_key_is(#[trigger] self.range_entries@[k].key, entity@, timeline@, lo, hi, strings_view(components@)),
            decreases self.range_entries@.len() - i,
        {
            let k = &self.range_entries[i].key;
            if k.lo == lo && k.hi == hi && k.entity == *entity && k.timeline == *timeline && strings_eq(&k.components, components) {
                return Some(i);
            }
            i += 1;
        }
        None
    }

    /// The range answer for `components` of `entity` over `[lo, hi]` on
    /// `timeline`: from the cache where it holds the key, else computed from
    /// the store and cached.
    pub fn get_or_compute_range(&mut self, store: &DataStore, entity: &String, timeline: &String, lo: i64, hi: i64, components: &Vec<String>) -> (r: Vec<RangeRow>)
        requires
            store.wf(),
            old(self).coherent(*store),
        ensures
            final(self).coherent(*store),
            final(self).registry == old(self).registry,
            final(self).entries == old(self).entries,
            range_rows_view(r@) == store.range_view(entity@, timeline@, lo, hi, strings_view(components@)),
            (exists|i: int| 0 <= i < old(self).range_entries@.len() && range_key_is(#[trigger] old(self).range_entries@[i].key, entity@, timeline@, lo, hi, strings_view(components@)))
                ==> final(self).hits == saturating_inc(old(self).hits) && final(self).misses == old(self).misses,
            !(exists|i: int| 0 <= i < old(self).range_entries@.len() && range_key_is(#[trigger] old(self).range_entries@[i].key, entity@, timeline@, lo, hi, strings_view(components@)))
                ==> final(self).misses == saturating_inc(old(self).misses) && final(self).hits == old(self).hits,
    {
        match self.find_range(entity, timeline, lo, hi, components) {
            Some(i) => {
                assert(range_entry_matches(self.range_entries@[i as int], *store));
                self.hits = inc(self.hits);
                clone_range_rows(&self.range_entries[i].rows)
            },
            None => {
                let rows = store.query_range(entity, timeline, lo, hi, components);
                let out = clone_range_rows(&rows);
                let key = RangeKey { entity: entity.clone(), timeline: timeline.clone(), lo, hi, components: clone_strings(components) };
                let ghost before = self.range_entries@;
                self.range_entries.push(RangeCacheEntry { key, rows });
                self.misses = inc(self.misses);
                proof {
                    assert forall|i: int| 0 <= i < self.range_entries@.len() implies #[trigger] range_entry_matches(self.range_entries@[i], *store) by {
                        if i < before.len() {
                            assert(self.range_entries@[i] == before[i]);
                        }
                    }
                }
                out
            },
        }
    }
}

} // verus!
