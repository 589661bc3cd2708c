use vstd::prelude::*;
use crate::cache::{CacheEntry, CachedComponent, QueryCache, RangeCacheEntry};
use crate::index::{RangeRow, RangeRowView, opt_bytes_view, range_rows_view};
use crate::codec::ColumnData;

verus! {

pub open spec fn sat(x: int) -> u64 {
    if x > u64::MAX { u64::MAX } else { x as u64 }
}

/// The summed first and second counts of the items under `key`, each sum
/// saturating at `u64::MAX` as it goes.
pub open spec fn group_sum(items: Seq<(Seq<char>, u64, u64)>, key: Seq<char>) -> (u64, u64)
    decreases items.len(),
{
    if items.len() == 0 {
        (0, 0)
    } else {
        let prev = group_sum(items.drop_last(), key);
        if items.last().0 == key {
            (sat(prev.0 + items.last().1), sat(prev.1 + items.last().2))
        } else {
            prev
        }
    }
}

pub open spec fn has_key(items: Seq<(Seq<char>, u64, u64)>, key: Seq<char>) -> bool {
    exists|i: int| 0 <= i < items.len() && (#[trigger] items[i]).0 == key
}

pub open spec fn triples_view(v: Seq<(String, u64, u64)>) -> Seq<(Seq<char>, u64, u64)> {
    v.map_values(|t: (String, u64, u64)| (t.0@, t.1, t.2))
}

/// `first` appears among the items before any item under `second`.
pub open spec fn appears_before(items: Seq<(Seq<char>, u64, u64)>, first: Seq<char>, second: Seq<char>) -> bool {
    exists|i: int| 0 <= i < items.len() && (#[trigger] items[i]).0 == first
        && forall|j: int| 0 <= j <= i ==> (#[trigger] items[j]).0 != second
}

/// One line per distinct key of `items`, in order of first appearance, with
/// the sums of its counts.
pub open spec fn grouped(items: Seq<(Seq<char>, u64, u64)>, out: Seq<(Seq<char>, u64, u64)>) -> bool {
    &&& forall|a: int, b: int| 0 <= a < b < out.len() ==> out[a].0 != out[b].0
    &&& forall|a: int, b: int| 0 <= a < b < out.len() ==> #[trigger] appears_before(items, out[a].0, out[b].0)
    &&& forall|k: int| 0 <= k < out.len() ==> has_key(items, #[trigger] out[k].0)
        && (out[k].1, out[k].2) == group_sum(items, out[k].0)
    &&& forall|i: int| 0 <= i < items.len() ==> has_key(out, (#[trigger] items[i]).0)
}

pub proof fn lemma_appears_before_grow(items: Seq<(Seq<char>, u64, u64)>, longer: Seq<(Seq<char>, u64, u64)>, first: Seq<char>, second: Seq<char>)
    requires
        appears_before(items, first, second),
        items.len() <= longer.len(),
        forall|i: int| 0 <= i < items.len() ==> longer[i] == items[i],
    ensures
        appears_before(longer, first, second),
{
    let i = choose|i: int| 0 <= i < items.len() && (#[trigger] items[i]).0 == first
        && forall|j: int| 0 <= j <= i ==> (#[trigger] items[j]).0 != second;
    assert(longer[i] == items[i]);
    assert forall|j: int| 0 <= j <= i implies (#[trigger] longer[j]).0 != second by {
        assert(longer[j] == items[j]);
    }
}

/// As `grouped`, but where `show_empty` is unset, keys whose first sum is
/// zero are left out.
pub open spec fn grouped_shown(items: Seq<(Seq<char>, u64, u64)>, out: Seq<(Seq<char>, u64, u64)>, show_empty: bool) -> bool {
    &&& forall|a: int, b: int| 0 <= a < b < out.len() ==> out[a].0 != out[b].0
    &&& forall|a: int, b: int| 0 <= a < b < out.len() ==> #[trigger] appears_before(items, out[a].0, out[b].0)
    &&& forall|k: int| 0 <= k < out.len() ==> has_key(items, #[trigger] out[k].0)
        && (out[k].1, out[k].2) == group_sum(items, out[k].0) && (show_empty || out[k].1 > 0)
    &&& forall|i: int| 0 <= i < items.len() && (show_empty || group_sum(items, items[i].0).0 > 0)
        ==> has_key(out, (#[trigger] items[i]).0)
}

pub open spec fn covered(idx: Seq<int>, g: int) -> bool {
    exists|x: int| 0 <= x < idx.len() && #[trigger] idx[x] == g
}

fn sat_add(a: u64, b: u64) -> (r: u64)
    ensures
        r == sat(a + b),
{
    if a > u64::MAX - b { u64::MAX } else { a + b }
}

/// Groups `items` by key and sums their counts.
pub fn group_by_key(items: &Vec<(String, u64, u64)>) -> (r: Vec<(String, u64, u64)>)
    ensures
        grouped(triples_view(items@), triples_view(r@)),
{
    let ghost all = triples_view(items@);
    let mut out: Vec<(String, u64, u64)> = Vec::new();
    let mut i: usize = 0;
    while i < items.len()
        invariant
            i <= items@.len(),
            all == triples_view(items@),
            grouped(all.subrange(0, i as int), triples_view(out@)),
        decreases items@.len() - i,
    {
        let ghost pre = all.subrange(0, i as int);
        let ghost cur = all.subrange(0, i + 1);
        let ghost ov = triples_view(out@);
        assert(cur.drop_last() =~= pre);
        let key = &items[i].0;
        let mut j: usize = 0;
        let mut found = false;
        while j < out.len() && !found
            invariant
                j <= out@.len(),
                ov == triples_view(out@),
                found ==> j >= 1 && ov[j - 1].0 == key@,
                !found ==> forall|x: int| 0 <= x < j ==> ov[x].0 != key@,
            decreases out@.len() - j + (if found { 0int } else { 1int }),
        {
            if out[j].0 == *key {
                found = true;
            }
            j += 1;
        }
        if found {
            let idx = j - 1;
            let a = sat_add(out[idx].1, items[i].1);
            let b = sat_add(out[idx].2, items[i].2);
            let name = out[idx].0.clone();
            out.set(idx, (name, a, b));
            proof {
                let nv = triples_view(out@);
                assert(nv =~= ov.update(idx as int, (key@, a, b)));
                assert forall|k: int| 0 <= k < nv.len() implies has_key(cur, #[trigger] nv[k].0)
                    && (nv[k].1, nv[k].2) == group_sum(cur, nv[k].0) by {
                    assert(has_key(pre, ov[k].0));
                    let w = choose|w: int| 0 <= w < pre.len() && (#[trigger] pre[w]).0 == ov[k].0;
                    assert(cur[w] == pre[w]);
                }
                assert forall|x: int| 0 <= x < cur.len() implies has_key(nv, (#[trigger] cur[x]).0) by {
                    if x < pre.len() {
                        assert(cur[x] == pre[x]);
                        let w = choose|w: int| 0 <= w < ov.len() && (#[trigger] ov[w]).0 == pre[x].0;
                        assert(nv[w].0 == ov[w].0);
                    } else {
                        assert(nv[idx as int].0 == key@);
                    }
                }
                assert forall|a: int, b: int| 0 <= a < b < nv.len() implies #[trigger] appears_before(cur, nv[a].0, nv[b].0) by {
                    assert(nv[a].0 == ov[a].0 && nv[b].0 == ov[b].0);
                    assert(appears_before(pre, ov[a].0, ov[b].0));
                    lemma_appears_before_grow(pre, cur, ov[a].0, ov[b].0);
                }
            }
        } else {
            let name = key.clone();
            out.push((name, items[i].1, items[i].2));
            proof {
                let nv = triples_view(out@);
                assert(nv =~= ov.push((key@, items@[i as int].1, items@[i as int].2)));
                assert(!has_key(pre, key@)) by {
                    if has_key(pre, key@) {
                        let w = choose|w: int| 0 <= w < pre.len() && (#[trigger] pre[w]).0 == key@;
                        assert(has_key(ov, pre[w].0));
                        let z = choose|z: int| 0 <= z < ov.len() && (#[trigger] ov[z]).0 == pre[w].0;
                    }
                }
                assert(group_sum(pre, key@) == (0u64, 0u64)) by {
                    lemma_group_sum_absent(pre, key@);
                }
                assert forall|k: int| 0 <= k < nv.len() implies has_key(cur, #[trigger] nv[k].0)
                    && (nv[k].1, nv[k].2) == group_sum(cur, nv[k].0) by {
                    if k < ov.len() {
                        assert(has_key(pre, ov[k].0));
                        let w = choose|w: int| 0 <= w < pre.len() && (#[trigger] pre[w]).0 == ov[k].0;
                        assert(cur[w] == pre[w]);
                    } else {
                        assert(cur[i as int].0 == key@);
                    }
                }
                assert forall|x: int| 0 <= x < cur.len() implies has_key(nv, (#[trigger] cur[x]).0) by {
                    if x < pre.len() {
                        assert(cur[x] == pre[x]);
                        let w = choose|w: int| 0 <= w < ov.len() && (#[trigger] ov[w]).0 == pre[x].0;
                        assert(nv[w] == ov[w]);
                    } else {
                        assert(nv[ov.len() as int].0 == key@);
                    }
                }
                assert forall|a: int, b: int| 0 <= a < b < nv.len() implies #[trigger] appears_before(cur, nv[a].0, nv[b].0) by {
                    assert(nv[a] == ov[a]);
                    if b < ov.len() {
                        assert(nv[b] == ov[b]);
                        assert(appears_before(pre, ov[a].0, ov[b].0));
                        lemma_appears_before_grow(pre, cur, ov[a].0, ov[b].0);
                    } else {
                        assert(nv[b].0 == key@);
                        assert(has_key(pre, ov[a].0));
                        let w = choose|w: int| 0 <= w < pre.len() && (#[trigger] pre[w]).0 == ov[a].0;
                        assert(cur[w] == pre[w]);
                        assert forall|j: int| 0 <= j <= w implies (#[trigger] cur[j]).0 != key@ by {
                            assert(cur[j] == pre[j]);
                            if pre[j].0 == key@ {
                                assert(has_key(pre, key@));
                            }
                        }
                    }
                }
            }
        }
        i += 1;
    }
    assert(all.subrange(0, i as int) =~= all);
    out
}

pub proof fn lemma_group_sum_absent(items: Seq<(Seq<char>, u64, u64)>, key: Seq<char>)
    requires
        !has_key(items, key),
    ensures
        group_sum(items, key) == (0u64, 0u64),
    decreases items.len(),
{
    if items.len() > 0 {
        let init = items.drop_last();
        assert(!has_key(init, key)) by {
            if has_key(init, key) {
                let w = choose|w: int| 0 <= w < init.len() && (#[trigger] init[w]).0 == key;
                assert(items[w] == init[w]);
            }
        }
        assert(items[items.len() - 1].0 != key);
        lemma_group_sum_absent(init, key);
    }
}

/// Rows that a cache entry holds: one where it holds a decoded answer.
pub open spec fn entry_rows(en: CacheEntry) -> u64 {
    match en.value {
        CachedComponent::Decoded { .. } => 1,
        _ => 0,
    }
}

/// Bytes of decoded data that a cache entry holds.
pub open spec fn entry_bytes(en: CacheEntry) -> u64 {
    match en.value {
        CachedComponent::Decoded { data, .. } => match data {
            ColumnData::Bytes(b) => b@.len() as u64,
            ColumnData::I32(v) => sat(4 * (v@.len() as int)),
        },
        _ => 0,
    }
}

/// Decoded instances that a cache entry holds.
pub open spec fn entry_instances(en: CacheEntry) -> u64 {
    match en.value {
        CachedComponent::Decoded { data, .. } => match data {
            ColumnData::Bytes(b) => b@.len() as u64,
            ColumnData::I32(v) => v@.len() as u64,
        },
        _ => 0,
    }
}

pub open spec fn entity_items(entries: Seq<CacheEntry>) -> Seq<(Seq<char>, u64, u64)> {
    entries.map_values(|en: CacheEntry| (en.key.entity@, entry_rows(en), entry_bytes(en)))
}

pub open spec fn component_items(entries: Seq<CacheEntry>, entity: Seq<char>) -> Seq<(Seq<char>, u64, u64)>
    decreases entries.len(),
{
    if entries.len() == 0 {
        seq![]
    } else {
        let prev = component_items(entries.drop_last(), entity);
        let en = entries.last();
        if en.key.entity@ == entity {
            prev.push((en.key.component@, entry_rows(en), entry_instances(en)))
        } else {
            prev
        }
    }
}

pub struct CachedComponentStats {
    pub component: String,
    pub total_rows: u64,
    pub total_instances: u64,
}

pub struct CachedEntityStats {
    pub entity: String,
    pub total_rows: u64,
    pub total_size_bytes: u64,
    /// Per component, where detailed statistics were asked for.
    pub per_component: Option<Vec<CachedComponentStats>>,
}

/// Statistics of one cached range answer.
pub struct CachedRangeStats {
    pub entity: String,
    pub timeline: String,
    pub lo: i64,
    pub hi: i64,
    pub total_rows: u64,
    pub total_size_bytes: u64,
}

pub ghost struct RangeLine {
    pub entity: Seq<char>,
    pub timeline: Seq<char>,
    pub lo: i64,
    pub hi: i64,
    pub total_rows: u64,
    pub total_size_bytes: u64,
}

impl View for CachedRangeStats {
    type V = RangeLine;

    open spec fn view(&self) -> RangeLine {
        RangeLine {
            entity: self.entity@,
            timeline: self.timeline@,
            lo: self.lo,
            hi: self.hi,
            total_rows: self.total_rows,
            total_size_bytes: self.total_size_bytes,
        }
    }
}

/// Bytes held by the cells of one range row, saturating.
pub open spec fn cells_bytes(cells: Seq<Option<Seq<u8>>>) -> u64
    decreases cells.len(),
{
    if cells.len() == 0 {
        0
    } else {
        sat(cells_bytes(cells.drop_last()) + match cells.last() {
            Some(b) => b.len() as int,
            None => 0int,
        })
    }
}

/// Bytes held by the cells of range rows, saturating.
pub open spec fn rows_bytes(rows: Seq<RangeRowView>) -> u64
    decreases rows.len(),
{
    if rows.len() == 0 {
        0
    } else {
        sat(rows_bytes(rows.drop_last()) + cells_bytes(rows.last().cells))
    }
}

/// The line of one cached range answer: its key, its row count and its bytes.
pub open spec fn range_line(en: RangeCacheEntry) -> RangeLine {
    RangeLine {
        entity: en.key.entity@,
        timeline: en.key.timeline@,
        lo: en.key.lo,
        hi: en.key.hi,
        total_rows: en.rows@.len() as u64,
        total_size_bytes: rows_bytes(range_rows_view(en.rows@)),
    }
}

/// One line per cached range answer, in cache order, leaving out answers
/// without rows unless `show_empty` is set.
pub open spec fn range_lines(entries: Seq<RangeCacheEntry>, show_empty: bool) -> Seq<RangeLine>
    decreases entries.len(),
{
    if entries.len() == 0 {
        seq![]
    } else {
        let prev = range_lines(entries.drop_last(), show_empty);
        let line = range_line(entries.last());
        if show_empty || line.total_rows > 0 {
            prev.push(line)
        } else {
            prev
        }
    }
}

pub open spec fn range_stats_view(v: Seq<CachedRangeStats>) -> Seq<RangeLine> {
    v.map_values(|s: CachedRangeStats| s@)
}

pub open spec fn range_bytes_of(v: Seq<RangeLine>) -> u64
    decreases v.len(),
{
    if v.len() == 0 {
        0
    } else {
        sat(range_bytes_of(v.drop_last()) + v.last().total_size_bytes)
    }
}

fn cells_bytes_exec(cells: &Vec<Option<Vec<u8>>>) -> (r: u64)
    ensures
        r == cells_bytes(cells@.map_values(|o: Option<Vec<u8>>| opt_bytes_view(o))),
{
    let ghost v = cells@.map_values(|o: Option<Vec<u8>>| opt_bytes_view(o));
    let mut total: u64 = 0;
    let mut i: usize = 0;
    while i < cells.len()
        invariant
            i <= cells@.len(),
            v == cells@.map_values(|o: Option<Vec<u8>>| opt_bytes_view(o)),
            total == cells_bytes(v.subrange(0, i as int)),
        decreases cells@.len() - i,
    {
        assert(v.subrange(0, i + 1).drop_last() =~= v.subrange(0, i as int));
        let n: u64 = match &cells[i] {
            Some(b) => b.len() as u64,
            None => 0,
        };
        total = sat_add(total, n);
        i += 1;
    }
    assert(v.subrange(0, i as int) =~= v);
    total
}

fn rows_bytes_exec(rows: &Vec<RangeRow>) -> (r: u64)
    ensures
        r == rows_bytes(range_rows_view(rows@)),
{
    let ghost v = range_rows_view(rows@);
    let mut total: u64 = 0;
    let mut i: usize = 0;
    while i < rows.len()
        invariant
            i <= rows@.len(),
            v == range_rows_view(rows@),
            total == rows_bytes(v.subrange(0, i as int)),
        decreases rows@.len() - i,
    {
        assert(v.subrange(0, i + 1).drop_last() =~= v.subrange(0, i as int));
        let n = cells_bytes_exec(&rows[i].cells);
        total = sat_add(total, n);
        i += 1;
    }
    assert(v.subrange(0, i as int) =~= v);
    total
}

fn range_stats(entries: &Vec<RangeCacheEntry>, show_empty: bool) -> (r: Vec<CachedRangeStats>)
    ensures
        range_stats_view(r@) == range_lines(entries@, show_empty),
{
    let mut out: Vec<CachedRangeStats> = Vec::new();
    let mut i: usize = 0;
    while i < entries.len()
        invariant
            i <= entries@.len(),
            range_stats_view(out@) == range_lines(entries@.subrange(0, i as int), show_empty),
        decreases entries@.len() - i,
    {
        assert(entries@.subrange(0, i + 1).drop_last() =~= entries@.subrange(0, i as int));
        let en = &entries[i];
        let rows = en.rows.len() as u64;
        if show_empty || rows > 0 {
            let line = CachedRangeStats {
                entity: en.key.entity.clone(),
                timeline: en.key.timeline.clone(),
                lo: en.key.lo,
                hi: en.key.hi,
                total_rows: rows,
                total_size_bytes: rows_bytes_exec(&en.rows),
            };
            let ghost before = out@;
            out.push(line);
            assert(range_stats_view(out@) =~= range_stats_view(before).push(line@));
        }
        i += 1;
    }
    assert(entries@.subrange(0, i as int) =~= entries@);
    out
}

/// Statistics of the cache: latest-at answers per entity, and one line per
/// cached range answer.
pub struct CachesStats {
    pub latest_at: Vec<CachedEntityStats>,
    pub range: Vec<CachedRangeStats>,
}

pub open spec fn entity_stats_view(v: Seq<CachedEntityStats>) -> Seq<(Seq<char>, u64, u64)> {
    v.map_values(|s: CachedEntityStats| (s.entity@, s.total_rows, s.total_size_bytes))
}

pub open spec fn component_stats_view(v: Seq<CachedComponentStats>) -> Seq<(Seq<char>, u64, u64)> {
    v.map_values(|s: CachedComponentStats| (s.component@, s.total_rows, s.total_instances))
}

pub open spec fn total_bytes_of(v: Seq<CachedEntityStats>) -> u64
    decreases v.len(),
{
    if v.len() == 0 {
        0
    } else {
        sat(total_bytes_of(v.drop_last()) + v.last().total_size_bytes)
    }
}

fn measure(en: &CacheEntry) -> (r: (u64, u64, u64))
    ensures
        r == (entry_rows(*en), entry_bytes(*en), entry_instances(*en)),
{
    match &en.value {
        CachedComponent::Decoded { data, .. } => match data {
            ColumnData::Bytes(b) => (1, b.len() as u64, b.len() as u64),
            ColumnData::I32(v) => {
                let n = v.len() as u64;
                let bytes = if n > u64::MAX / 4 { u64::MAX } else { 4 * n };
                (1, bytes, n)
            },
        },
        _ => (0, 0, 0),
    }
}

impl CachedEntityStats {
    /// Whether no decoded data is cached for the entity.
    pub fn is_empty(&self) -> (r: bool)
        ensures
            r == (self.total_rows == 0),
    {
        self.total_rows == 0
    }
}

impl CachesStats {
    /// Cached bytes over all latest-at and range lines, saturating at
    /// `u64::MAX`.
    pub fn total_size_bytes(&self) -> (r: u64)
        ensures
            r == sat(total_bytes_of(self.latest_at@) + range_bytes_of(range_stats_view(self.range@))),
    {
        let mut total: u64 = 0;
        let mut i: usize = 0;
        while i < self.latest_at.len()
            invariant
                i <= self.latest_at@.len(),
                total == total_bytes_of(self.latest_at@.subrange(0, i as int)),
            decreases self.latest_at@.len() - i,
        {
            assert(self.latest_at@.subrange(0, i + 1).drop_last() =~= self.latest_at@.subrange(0, i as int));
            total = sat_add(total, self.latest_at[i].total_size_bytes);
            i += 1;
        }
        assert(self.latest_at@.subrange(0, i as int) =~= self.latest_at@);
        let ghost rv = range_stats_view(self.range@);
        let mut ranges: u64 = 0;
        let mut k: usize = 0;
        while k < self.range.len()
            invariant
                k <= self.range@.len(),
                rv == range_stats_view(self.range@),
                ranges == range_bytes_of(rv.subrange(0, k as int)),
            decreases self.range@.len() - k,
        {
            assert(rv.subrange(0, k + 1).drop_last() =~= rv.subrange(0, k as int));
            ranges = sat_add(ranges, self.range[k].total_size_bytes);
            k += 1;
        }
        assert(rv.subrange(0, k as int) =~= rv);
        sat_add(total, ranges)
    }
}

fn per_component(entries: &Vec<CacheEntry>, entity: &String) -> (r: Vec<CachedComponentStats>)
    ensures
        grouped(component_items(entries@, entity@), component_stats_view(r@)),
{
    let mut items: Vec<(String, u64, u64)> = Vec::new();
    let mut i: usize = 0;
    while i < entries.len()
        invariant
            i <= entries@.len(),
            triples_view(items@) == component_items(entries@.subrange(0, i as int), entity@),
        decreases entries@.len() - i,
    {
        assert(entries@.subrange(0, i + 1).drop_last() =~= entries@.subrange(0, i as int));
        if entries[i].key.entity == *entity {
            let (rows, _bytes, instances) = measure(&entries[i]);
            let ghost before = triples_view(items@);
            items.push((entries[i].key.component.clone(), rows, instances));
            assert(triples_view(items@) =~= before.push((entries@[i as int].key.component@, rows, instances)));
        }
        i += 1;
    }
    assert(entries@.subrange(0, i as int) =~= entries@);
    let groups = group_by_key(&items);
    let mut out: Vec<CachedComponentStats> = Vec::new();
    let mut k: usize = 0;
    while k < groups.len()
        invariant
            k <= groups@.len(),
            out@.len() == k,
            forall|x: int| 0 <= x < k ==> component_stats_view(out@)[x] == triples_view(groups@)[x],
        decreases groups@.len() - k,
    {
        out.push(CachedComponentStats { component: groups[k].0.clone(), total_rows: groups[k].1, total_instances: groups[k].2 });
        proof {
            assert forall|x: int| 0 <= x < k + 1 implies component_stats_view(out@)[x] == triples_view(groups@)[x] by {
                if x < k {
                    assert(component_stats_view(out@)[x] == (out@[x].component@, out@[x].total_rows, out@[x].total_instances));
                }
            }
        }
        k += 1;
    }
    assert(component_stats_view(out@) =~= triples_view(groups@));
    out
}

impl QueryCache {
    /// Rows and decoded bytes per entity, one line per entity in order of
    /// first appearance, leaving out entities without cached rows unless
    /// `show_empty` is set; with `detailed`, rows and instances per component
    /// of each entity too, which walks every entry once more per entity.
    pub fn stats(&self, detailed: bool, show_empty: bool) -> (r: CachesStats)
        ensures
            grouped_shown(entity_items(self.entries@), entity_stats_view(r.latest_at@), show_empty),
            range_stats_view(r.range@) == range_lines(self.range_entries@, show_empty),
            forall|k: int| 0 <= k < r.latest_at@.len() ==> (#[trigger] r.latest_at@[k]).per_component.is_some() == detailed,
            detailed ==> forall|k: int| 0 <= k < r.latest_at@.len() ==> grouped(
                component_items(self.entries@, (#[trigger] r.latest_at@[k]).entity@),
                component_stats_view(r.latest_at@[k].per_component->Some_0@),
            ),
    {
        let mut items: Vec<(String, u64, u64)> = Vec::new();
        let mut i: usize = 0;
        while i < self.entries.len()
            invariant
                i <= self.entries@.len(),
                items@.len() == i,
                forall|x: int| 0 <= x < i ==> triples_view(items@)[x] == entity_items(self.entries@)[x],
            decreases self.entries@.len() - i,
        {
            let (rows, bytes, _instances) = measure(&self.entries[i]);
            let ghost before = items@;
            let name = self.entries[i].key.entity.clone();
            assert(name@ == self.entries@[i as int].key.entity@);
            items.push((name, rows, bytes));
            proof {
                assert forall|x: int| 0 <= x < i + 1 implies triples_view(items@)[x] == entity_items(self.entries@)[x] by {
                    assert(triples_view(items@)[x] == (items@[x].0@, items@[x].1, items@[x].2));
                    if x < i {
                        assert(items@[x] == before[x]);
                        assert(triples_view(before)[x] == (before[x].0@, before[x].1, before[x].2));
                    }
                }
            }
            i += 1;
        }
        assert(triples_view(items@) =~= entity_items(self.entries@));
        let groups = group_by_key(&items);
        let ghost all = entity_items(self.entries@);
        let ghost gv = triples_view(groups@);
        let mut out: Vec<CachedEntityStats> = Vec::new();
        let ghost mut idx: Seq<int> = seq![];
        let mut k: usize = 0;
        while k < groups.len()
            invariant
                k <= groups@.len(),
                gv == triples_view(groups@),
                all == entity_items(self.entries@),
                grouped(all, gv),
                idx.len() == out@.len(),
                forall|x: int, y: int| 0 <= x < y < idx.len() ==> idx[x] < idx[y],
                forall|x: int| 0 <= x < idx.len() ==> 0 <= #[trigger] idx[x] < k && entity_stats_view(out@)[x] == gv[idx[x]]
                    && (show_empty || gv[idx[x]].1 > 0),
                forall|g: int| 0 <= g < k && (show_empty || gv[g].1 > 0) ==> #[trigger] covered(idx, g),
                forall|x: int| 0 <= x < out@.len() ==> (#[trigger] out@[x]).per_component.is_some() == detailed,
                detailed ==> forall|x: int| 0 <= x < out@.len() ==> grouped(
                    component_items(self.entries@, (#[trigger] out@[x]).entity@),
                    component_stats_view(out@[x].per_component->Some_0@),
                ),
            decreases groups@.len() - k,
        {
            if show_empty || groups[k].1 > 0 {
                let pc = if detailed { Some(per_component(&self.entries, &groups[k].0)) } else { None };
                let ghost before = out@;
                out.push(CachedEntityStats {
                    entity: groups[k].0.clone(),
                    total_rows: groups[k].1,
                    total_size_bytes: groups[k].2,
                    per_component: pc,
                });
                proof {
                    let old_idx = idx;
                    idx = idx.push(k as int);
                    assert forall|x: int| 0 <= x < idx.len() implies 0 <= #[trigger] idx[x] < k + 1 && entity_stats_view(out@)[x] == gv[idx[x]]
                        && (show_empty || gv[idx[x]].1 > 0) by {
                        assert(entity_stats_view(out@)[x] == (out@[x].entity@, out@[x].total_rows, out@[x].total_size_bytes));
                        if x < before.len() {
                            assert(out@[x] == before[x]);
                            assert(entity_stats_view(before)[x] == (before[x].entity@, before[x].total_rows, before[x].total_size_bytes));
                        }
                    }
                    assert forall|g: int| 0 <= g < k + 1 && (show_empty || gv[g].1 > 0) implies #[trigger] covered(idx, g) by {
                        if g == k {
                            assert(idx[idx.len() - 1] == g);
                        } else {
                            assert(covered(old_idx, g));
                            let x = choose|x: int| 0 <= x < old_idx.len() && #[trigger] old_idx[x] == g;
                            assert(idx[x] == g);
                        }
                    }
                    assert forall|x: int| 0 <= x < out@.len() implies (#[trigger] out@[x]).per_component.is_some() == detailed by {
                        if x < before.len() {
                            assert(out@[x] == before[x]);
                        }
                    }
                    if detailed {
                        assert forall|x: int| 0 <= x < out@.len() implies grouped(
                            component_items(self.entries@, (#[trigger] out@[x]).entity@),
                            component_stats_view(out@[x].per_component->Some_0@),
                        ) by {
                            if x < before.len() {
                                assert(out@[x] == before[x]);
                            }
                        }
                    }
                }
            } else {
                proof {
                    assert forall|g: int| 0 <= g < k + 1 && (show_empty || gv[g].1 > 0) implies #[trigger] covered(idx, g) by {
                        assert(g != k);
                        assert(covered(idx, g));
                    }
                }
            }
            k += 1;
        }
        proof {
            let ov = entity_stats_view(out@);
            assert forall|a: int, b: int| 0 <= a < b < ov.len() implies ov[a].0 != ov[b].0 by {
                assert(idx[a] < idx[b]);
                assert(ov[a] == gv[idx[a]]);
                assert(ov[b] == gv[idx[b]]);
            }
            assert forall|a: int, b: int| 0 <= a < b < ov.len() implies #[trigger] appears_before(all, ov[a].0, ov[b].0) by {
                assert(idx[a] < idx[b]);
                assert(ov[a] == gv[idx[a]]);
                assert(ov[b] == gv[idx[b]]);
                assert(appears_before(all, gv[idx[a]].0, gv[idx[b]].0));
            }
            assert forall|kk: int| 0 <= kk < ov.len() implies has_key(all, #[trigger] ov[kk].0)
                && (ov[kk].1, ov[kk].2) == group_sum(all, ov[kk].0) && (show_empty || ov[kk].1 > 0) by {
                assert(ov[kk] == gv[idx[kk]]);
                assert(has_key(all, gv[idx[kk]].0));
            }
            assert forall|i: int| 0 <= i < all.len() && (show_empty || group_sum(all, all[i].0).0 > 0)
                implies has_key(ov, (#[trigger] all[i]).0) by {
                assert(has_key(gv, all[i].0));
                let g = choose|g: int| 0 <= g < gv.len() && (#[trigger] gv[g]).0 == all[i].0;
                assert(has_key(all, gv[g].0));
                assert((gv[g].1, gv[g].2) == group_sum(all, gv[g].0));
                assert(covered(idx, g));
                let x = choose|x: int| 0 <= x < idx.len() && #[trigger] idx[x] == g;
                assert(ov[x] == gv[g]);
            }
        }
        let range = range_stats(&self.range_entries, show_empty);
        CachesStats { latest_at: out, range }
    }
}

} // verus!
