use vstd::prelude::*;
use crate::cell::{CellView, DataCell, cells_view, cells_size, cell_for, clone_cells, size_of_cells};
use crate::index::{
    IndexedRow, RowView, RangeRow, RangeRowView, rows_view, is_sorted, latest_in, range_in,
    insert_sorted, latest_in_rows, range_in_rows, strings_view, range_rows_view,
    lemma_latest_in_insert_other, lemma_range_in_insert_other, in_range, is_candidate, ids_distinct,
    ids_issued, lemma_ids_insert, lemma_ids_suffix, lemma_ids_issued_grow,
};

verus! {

/// The time under which timeless rows are indexed; they are ordered by row id.
pub const TIMELESS_TIME: i64 = 0;

/// A time on one named timeline.
pub struct TimeEntry {
    pub timeline: String,
    pub time: i64,
}

pub open spec fn entries_view(tp: Seq<TimeEntry>) -> Seq<(Seq<char>, i64)> {
    tp.map_values(|e: TimeEntry| (e.timeline@, e.time))
}

/// The time that a time point gives on `timeline`; the last entry for a
/// timeline counts.
pub open spec fn time_for(tp: Seq<(Seq<char>, i64)>, timeline: Seq<char>) -> Option<i64>
    decreases tp.len(),
{
    if tp.len() == 0 {
        None
    } else if tp.last().0 == timeline {
        Some(tp.last().1)
    } else {
        time_for(tp.drop_last(), timeline)
    }
}

/// The rows of one entity on one timeline, or its timeless rows (`timeline`
/// is `None`), sorted by (time, row id).
pub struct IndexTable {
    pub entity: String,
    pub timeline: Option<String>,
    pub rows: Vec<IndexedRow>,
}

pub open spec fn opt_str_view(o: Option<String>) -> Option<Seq<char>> {
    match o {
        Some(s) => Some(s@),
        None => None,
    }
}

pub open spec fn table_key(t: IndexTable) -> (Seq<char>, Option<Seq<char>>) {
    (t.entity@, opt_str_view(t.timeline))
}

/// The rows that `tables` hold for the given entity and timeline.
pub open spec fn rows_of(tables: Seq<IndexTable>, entity: Seq<char>, timeline: Option<Seq<char>>) -> Seq<RowView>
    decreases tables.len(),
{
    if tables.len() == 0 {
        seq![]
    } else if table_key(tables.last()) == (entity, timeline) {
        rows_view(tables.last().rows@)
    } else {
        rows_of(tables.drop_last(), entity, timeline)
    }
}

/// Total number of encoded bytes held by `rows`.
pub open spec fn rows_size(rows: Seq<RowView>) -> nat
    decreases rows.len(),
{
    if rows.len() == 0 {
        0
    } else {
        rows_size(rows.drop_last()) + cells_size(rows.last().cells)
    }
}

/// What one table adds to a statistic: rows or bytes, of the timeless or of
/// the temporal partition.
pub open spec fn contribution(t: IndexTable, timeless: bool, bytes: bool) -> nat {
    if t.timeline.is_none() == timeless {
        if bytes {
            rows_size(rows_view(t.rows@))
        } else {
            t.rows@.len()
        }
    } else {
        0
    }
}

pub open spec fn partition_sum(tables: Seq<IndexTable>, timeless: bool, bytes: bool) -> nat
    decreases tables.len(),
{
    if tables.len() == 0 {
        0
    } else {
        partition_sum(tables.drop_last(), timeless, bytes) + contribution(tables.last(), timeless, bytes)
    }
}


pub open spec fn keys_unique(tables: Seq<IndexTable>) -> bool {
    forall|i: int, j: int| 0 <= i < j < tables.len() ==> table_key(tables[i]) != table_key(tables[j])
}

/// Timeless rows are all indexed under the same time.
pub open spec fn timeless_at_fixed_time(tables: Seq<IndexTable>) -> bool {
    forall|i: int, k: int| 0 <= i < tables.len() && tables[i].timeline.is_none() && 0 <= k < tables[i].rows@.len()
        ==> (#[trigger] tables[i].rows@[k]).time == TIMELESS_TIME
}

pub proof fn lemma_rows_of_timeless(tables: Seq<IndexTable>, entity: Seq<char>)
    requires
        timeless_at_fixed_time(tables),
    ensures
        forall|k: int| 0 <= k < rows_of(tables, entity, None).len() ==> (#[trigger] rows_of(tables, entity, None)[k]).time == TIMELESS_TIME,
    decreases tables.len(),
{
    if tables.len() > 0 {
        let init = tables.drop_last();
        let n = tables.len() - 1;
        if table_key(tables.last()) == (entity, None::<Seq<char>>) {
            assert(tables.last() == tables[n]);
            assert(tables[n].timeline.is_none());
            assert(rows_of(tables, entity, None) == rows_view(tables[n].rows@));
            assert forall|k: int| 0 <= k < rows_view(tables[n].rows@).len() implies (#[trigger] rows_view(tables[n].rows@)[k]).time == TIMELESS_TIME by {
                assert(tables[n].rows@[k].time == TIMELESS_TIME);
            }
        } else {
            assert forall|i: int, k: int| 0 <= i < init.len() && init[i].timeline.is_none() && 0 <= k < init[i].rows@.len()
                implies (#[trigger] init[i].rows@[k]).time == TIMELESS_TIME by {
                assert(init[i] == tables[i]);
            }
            lemma_rows_of_timeless(init, entity);
            assert(rows_of(tables, entity, None) == rows_of(init, entity, None));
        }
    }
}

pub proof fn lemma_rows_of_issued(tables: Seq<IndexTable>, used: Seq<u64>, entity: Seq<char>, timeline: Option<Seq<char>>)
    requires
        forall|i: int| 0 <= i < tables.len() ==> #[trigger] ids_issued(rows_view(tables[i].rows@), used),
    ensures
        ids_issued(rows_of(tables, entity, timeline), used),
    decreases tables.len(),
{
    if tables.len() > 0 {
        let init = tables.drop_last();
        assert(ids_issued(rows_view(tables[tables.len() - 1].rows@), used));
        assert forall|i: int| 0 <= i < init.len() implies #[trigger] ids_issued(rows_view(init[i].rows@), used) by {
            assert(init[i] == tables[i]);
            assert(ids_issued(rows_view(tables[i].rows@), used));
        }
        lemma_rows_of_issued(init, used, entity, timeline);
    }
}

pub proof fn lemma_rows_of_at(tables: Seq<IndexTable>, i: int)
    requires
        keys_unique(tables),
        0 <= i < tables.len(),
    ensures
        rows_of(tables, table_key(tables[i]).0, table_key(tables[i]).1) == rows_view(tables[i].rows@),
    decreases tables.len(),
{
    if i < tables.len() - 1 {
        let init = tables.drop_last();
        assert(table_key(tables.last()) != table_key(tables[i]));
        assert(init[i] == tables[i]);
        lemma_rows_of_at(init, i);
    }
}

pub proof fn lemma_rows_of_absent(tables: Seq<IndexTable>, entity: Seq<char>, timeline: Option<Seq<char>>)
    requires
        forall|i: int| 0 <= i < tables.len() ==> table_key(#[trigger] tables[i]) != (entity, timeline),
    ensures
        rows_of(tables, entity, timeline) == Seq::<RowView>::empty(),
    decreases tables.len(),
{
    if tables.len() > 0 {
        let init = tables.drop_last();
        assert forall|i: int| 0 <= i < init.len() implies table_key(#[trigger] init[i]) != (entity, timeline) by {
            assert(init[i] == tables[i]);
        }
        lemma_rows_of_absent(init, entity, timeline);
    }
}

pub proof fn lemma_rows_of_update(tables: Seq<IndexTable>, i: int, t: IndexTable, entity: Seq<char>, timeline: Option<Seq<char>>)
    requires
        keys_unique(tables),
        0 <= i < tables.len(),
        table_key(t) == table_key(tables[i]),
    ensures
        keys_unique(tables.update(i, t)),
        rows_of(tables.update(i, t), entity, timeline) == if (entity, timeline) == table_key(t) {
            rows_view(t.rows@)
        } else {
            rows_of(tables, entity, timeline)
        },
    decreases tables.len(),
{
    let upd = tables.update(i, t);
    assert forall|a: int, b: int| 0 <= a < b < upd.len() implies table_key(upd[a]) != table_key(upd[b]) by {
        assert(table_key(upd[a]) == table_key(tables[a]));
        assert(table_key(upd[b]) == table_key(tables[b]));
    }
    if (entity, timeline) == table_key(t) {
        lemma_rows_of_at(upd, i);
    } else if i == tables.len() - 1 {
        assert(upd.drop_last() =~= tables.drop_last());
    } else {
        assert(upd.drop_last() =~= tables.drop_last().update(i, t));
        lemma_rows_of_update(tables.drop_last(), i, t, entity, timeline);
    }
}

pub proof fn lemma_partition_update(tables: Seq<IndexTable>, i: int, t: IndexTable, timeless: bool, bytes: bool)
    requires
        0 <= i < tables.len(),
    ensures
        partition_sum(tables.update(i, t), timeless, bytes) + contribution(tables[i], timeless, bytes)
            == partition_sum(tables, timeless, bytes) + contribution(t, timeless, bytes),
    decreases tables.len(),
{
    let upd = tables.update(i, t);
    if i == tables.len() - 1 {
        assert(upd.drop_last() =~= tables.drop_last());
    } else {
        assert(upd.drop_last() =~= tables.drop_last().update(i, t));
        lemma_partition_update(tables.drop_last(), i, t, timeless, bytes);
    }
}

pub proof fn lemma_rows_size_insert(rows: Seq<RowView>, pos: int, r: RowView)
    requires
        0 <= pos <= rows.len(),
    ensures
        rows_size(rows.insert(pos, r)) == rows_size(rows) + cells_size(r.cells),
    decreases rows.len(),
{
    let ins = rows.insert(pos, r);
    if pos == rows.len() {
        assert(ins.drop_last() =~= rows);
    } else {
        assert(ins.drop_last() =~= rows.drop_last().insert(pos, r));
        lemma_rows_size_insert(rows.drop_last(), pos, r);
    }
}

/// Row and byte counts of one partition of the store.
#[derive(Clone, Copy, Debug, PartialEq, Eq)]
pub struct DataStoreRowStats {
    pub num_rows: u64,
    pub num_bytes: u64,
}

/// Row and byte counts of the store, by partition.
#[derive(Clone, Copy, Debug, PartialEq, Eq)]
pub struct DataStoreStats {
    pub timeless: DataStoreRowStats,
    pub temporal: DataStoreRowStats,
    pub total: DataStoreRowStats,
}

#[derive(Clone, Copy, Debug, PartialEq, Eq)]
pub enum StoreError {
    DuplicateRowId(u64),
}

#[derive(Clone, Copy, Debug, PartialEq, Eq)]
pub enum StoreEventKind {
    Insertion,
    Eviction,
}

/// The diff of one mutation: which entity, which row, at which times (none
/// for timeless data), and the cells added or removed.
pub struct StoreEvent {
    pub kind: StoreEventKind,
    pub entity: String,
    pub row_id: u64,
    pub times: Vec<TimeEntry>,
    pub cells: Vec<DataCell>,
}

/// The in-memory store: one sorted index per (entity, timeline) pair and one
/// per entity for timeless rows.
pub struct DataStore {
    pub tables: Vec<IndexTable>,
    pub used_row_ids: Vec<u64>,
    pub timeless_stats: DataStoreRowStats,
    pub temporal_stats: DataStoreRowStats,
}

impl DataStore {
    pub open spec fn rows(&self, entity: Seq<char>, timeline: Option<Seq<char>>) -> Seq<RowView> {
        rows_of(self.tables@, entity, timeline)
    }

    pub open spec fn wf(&self) -> bool {
        &&& forall|i: int| 0 <= i < self.tables@.len() ==> #[trigger] is_sorted(rows_view(self.tables@[i].rows@))
        &&& forall|i: int, j: int| 0 <= i < j < self.tables@.len() ==> table_key(self.tables@[i]) != table_key(self.tables@[j])
        &&& timeless_at_fixed_time(self.tables@)
        &&& forall|i: int| 0 <= i < self.tables@.len() ==> #[trigger] ids_distinct(rows_view(self.tables@[i].rows@))
        &&& forall|i: int| 0 <= i < self.tables@.len() ==> #[trigger] ids_issued(rows_view(self.tables@[i].rows@), self.used_row_ids@)
        &&& self.timeless_stats.num_rows == partition_sum(self.tables@, true, false)
        &&& self.timeless_stats.num_bytes == partition_sum(self.tables@, true, true)
        &&& self.temporal_stats.num_rows == partition_sum(self.tables@, false, false)
        &&& self.temporal_stats.num_bytes == partition_sum(self.tables@, false, true)
        &&& self.timeless_stats.num_rows + self.temporal_stats.num_rows <= u64::MAX
        &&& self.timeless_stats.num_bytes + self.temporal_stats.num_bytes <= u64::MAX
    }

    pub open spec fn stats_spec(&self) -> DataStoreStats {
        DataStoreStats {
            timeless: self.timeless_stats,
            temporal: self.temporal_stats,
            total: DataStoreRowStats {
                num_rows: (self.timeless_stats.num_rows + self.temporal_stats.num_rows) as u64,
                num_bytes: (self.timeless_stats.num_bytes + self.temporal_stats.num_bytes) as u64,
            },
        }
    }

    pub fn new() -> (r: DataStore)
        ensures
            r.wf(),
            r.used_row_ids@.len() == 0,
            r.timeless_stats == (DataStoreRowStats { num_rows: 0, num_bytes: 0 }),
            r.temporal_stats == (DataStoreRowStats { num_rows: 0, num_bytes: 0 }),
            forall|e: Seq<char>, tl: Option<Seq<char>>| #[trigger] r.rows(e, tl).len() == 0,
    {
        DataStore {
            tables: Vec::new(),
            used_row_ids: Vec::new(),
            timeless_stats: DataStoreRowStats { num_rows: 0, num_bytes: 0 },
            temporal_stats: DataStoreRowStats { num_rows: 0, num_bytes: 0 },
        }
    }

    /// Counts of rows and bytes per partition, read from counters kept up to
    /// date by every mutation.
    pub fn stats(&self) -> (r: DataStoreStats)
        requires
            self.wf(),
        ensures
            r == self.stats_spec(),
            r.total.num_rows == r.timeless.num_rows + r.temporal.num_rows,
            r.total.num_bytes == r.timeless.num_bytes + r.temporal.num_bytes,
    {
        DataStoreStats {
            timeless: self.timeless_stats,
            temporal: self.temporal_stats,
            total: DataStoreRowStats {
                num_rows: self.timeless_stats.num_rows + self.temporal_stats.num_rows,
                num_bytes: self.timeless_stats.num_bytes + self.temporal_stats.num_bytes,
            },
        }
    }
}

fn opt_str_eq(a: &Option<String>, b: &Option<String>) -> (r: bool)
    ensures
        r == (opt_str_view(*a) == opt_str_view(*b)),
{
    match (a, b) {
        (Some(x), Some(y)) => *x == *y,
        (None, None) => true,
        _ => false,
    }
}

fn clone_opt_str(a: &Option<String>) -> (r: Option<String>)
    ensures
        opt_str_view(r) == opt_str_view(*a),
{
    match a {
        Some(x) => Some(x.clone()),
        None => None,
    }
}

impl DataStore {
    fn find_table(&self, entity: &String, timeline: &Option<String>) -> (r: Option<usize>)
        ensures
            match r {
                Some(i) => i < self.tables@.len() && table_key(self.tables@[i as int]) == (entity@, opt_str_view(*timeline)),
                None => forall|i: int| 0 <= i < self.tables@.len() ==> table_key(#[trigger] self.tables@[i]) != (entity@, opt_str_view(*timeline)),
            },
    {
        let mut i: usize = 0;
        while i < self.tables.len()
            invariant
                i <= self.tables@.len(),
                forall|k: int| 0 <= k < i ==> table_key(#[trigger] self.tables@[k]) != (entity@, opt_str_view(*timeline)),
            decreases self.tables@.len() - i,
        {
            if self.tables[i].entity == *entity && opt_str_eq(&self.tables[i].timeline, timeline) {
                return Some(i);
            }
            i += 1;
        }
        None
    }

    /// Adds `row` to the index of `entity` on `timeline`, creating the index
    /// where there is none yet.
    fn add_row(&mut self, entity: &String, timeline: &Option<String>, row: IndexedRow, size: u64) -> (pos: usize)
        requires
            old(self).wf(),
            size == cells_size(row@.cells),
            timeline.is_none() ==> row.time == TIMELESS_TIME,
            old(self).used_row_ids@.contains(row.row_id),
            forall|k: int| 0 <= k < old(self).rows(entity@, opt_str_view(*timeline)).len()
                ==> (#[trigger] old(self).rows(entity@, opt_str_view(*timeline))[k]).row_id != row.row_id,
            old(self).timeless_stats.num_rows + old(self).temporal_stats.num_rows + 1 <= u64::MAX,
            old(self).timeless_stats.num_bytes + old(self).temporal_stats.num_bytes + size <= u64::MAX,
        ensures
            final(self).wf(),
            final(self).used_row_ids == old(self).used_row_ids,
            pos <= old(self).rows(entity@, opt_str_view(*timeline)).len(),
            final(self).rows(entity@, opt_str_view(*timeline)) == old(self).rows(entity@, opt_str_view(*timeline)).insert(pos as int, row@),
            forall|e: Seq<char>, tl: Option<Seq<char>>| (e, tl) != (entity@, opt_str_view(*timeline))
                ==> #[trigger] final(self).rows(e, tl) == old(self).rows(e, tl),
            timeline.is_none() ==> final(self).timeless_stats.num_rows == old(self).timeless_stats.num_rows + 1
                && final(self).timeless_stats.num_bytes == old(self).timeless_stats.num_bytes + size
                && final(self).temporal_stats == old(self).temporal_stats,
            timeline.is_some() ==> final(self).temporal_stats.num_rows == old(self).temporal_stats.num_rows + 1
                && final(self).temporal_stats.num_bytes == old(self).temporal_stats.num_bytes + size
                && final(self).timeless_stats == old(self).timeless_stats,
    {
        let ghost old_tables = self.tables@;
        let ghost key = (entity@, opt_str_view(*timeline));
        let ghost rv = row@;
        let ghost key_rows = self.rows(entity@, opt_str_view(*timeline));
        let mut pos_r: usize = 0;
        match self.find_table(entity, timeline) {
            Some(i) => {
                proof {
                    lemma_rows_of_at(old_tables, i as int);
                }
                let pos = insert_sorted(&mut self.tables[i].rows, row);
                proof {
                    let t = self.tables@[i as int];
                    assert(self.tables@ == old_tables.update(i as int, t));
                    assert forall|e: Seq<char>, tl: Option<Seq<char>>| true implies
                        #[trigger] rows_of(self.tables@, e, tl) == if (e, tl) == key { rows_view(t.rows@) } else { rows_of(old_tables, e, tl) } by {
                        lemma_rows_of_update(old_tables, i as int, t, e, tl);
                    }
                    lemma_rows_of_update(old_tables, i as int, t, entity@, opt_str_view(*timeline));
                    lemma_rows_size_insert(rows_view(old_tables[i as int].rows@), pos as int, rv);
                    lemma_partition_update(old_tables, i as int, t, true, true);
                    lemma_partition_update(old_tables, i as int, t, true, false);
                    lemma_partition_update(old_tables, i as int, t, false, true);
                    lemma_partition_update(old_tables, i as int, t, false, false);
                    assert forall|k: int| 0 <= k < self.tables@.len() implies #[trigger] is_sorted(rows_view(self.tables@[k].rows@)) by {
                        if k != i {
                            assert(self.tables@[k] == old_tables[k]);
                        }
                    }
                    assert(rows_view(old_tables[i as int].rows@) == key_rows);
                    assert(ids_distinct(rows_view(old_tables[i as int].rows@)));
                    assert(ids_issued(rows_view(old_tables[i as int].rows@), self.used_row_ids@));
                    assert forall|k: int| 0 <= k < key_rows.len() implies key_rows[k].row_id != rv.row_id by {
                        assert(key_rows[k] == key_rows[k]);
                    }
                    lemma_ids_insert(rows_view(old_tables[i as int].rows@), pos as int, rv, self.used_row_ids@);
                    assert forall|k: int| 0 <= k < self.tables@.len() implies #[trigger] ids_distinct(rows_view(self.tables@[k].rows@))
                        && ids_issued(rows_view(self.tables@[k].rows@), self.used_row_ids@) by {
                        if k != i {
                            assert(self.tables@[k] == old_tables[k]);
                        }
                    }
                    assert forall|k: int| 0 <= k < self.tables@.len() implies #[trigger] ids_issued(rows_view(self.tables@[k].rows@), self.used_row_ids@) by {
                        assert(ids_distinct(rows_view(self.tables@[k].rows@)));
                    }
                    assert forall|a: int, k: int| 0 <= a < self.tables@.len() && self.tables@[a].timeline.is_none() && 0 <= k < self.tables@[a].rows@.len()
                        implies (#[trigger] self.tables@[a].rows@[k]).time == TIMELESS_TIME by {
                        if a != i {
                            assert(self.tables@[a] == old_tables[a]);
                        } else {
                            assert(rows_view(self.tables@[a].rows@)[k] == self.tables@[a].rows@[k]@);
                            assert(rows_view(old_tables[a].rows@).insert(pos as int, rv)[k] == self.tables@[a].rows@[k]@);
                            if k < pos {
                                assert(rows_view(old_tables[a].rows@)[k] == old_tables[a].rows@[k]@);
                            } else if k > pos {
                                assert(rows_view(old_tables[a].rows@)[k - 1] == old_tables[a].rows@[k - 1]@);
                            }
                        }
                    }
                    assert(rows_of(self.tables@, entity@, opt_str_view(*timeline)) == rows_of(old_tables, entity@, opt_str_view(*timeline)).insert(pos as int, rv));
                }
                pos_r = pos;
            },
            None => {
                proof {
                    lemma_rows_of_absent(old_tables, entity@, opt_str_view(*timeline));
                }
                let mut rows: Vec<IndexedRow> = Vec::new();
                rows.push(row);
                let t = IndexTable { entity: entity.clone(), timeline: clone_opt_str(timeline), rows };
                self.tables.push(t);
                proof {
                    assert(self.tables@.drop_last() =~= old_tables);
                    assert(rows_view(t.rows@) =~= Seq::<RowView>::empty().insert(0, rv));
                    assert(rows_of(self.tables@, entity@, opt_str_view(*timeline)) == Seq::<RowView>::empty().insert(0, rv));
                    assert(rows_view(t.rows@).drop_last() =~= Seq::<RowView>::empty());
                    assert(rows_view(t.rows@).last() == rv);
                    assert(rows_size(Seq::<RowView>::empty()) == 0);
                    assert(rows_size(rows_view(t.rows@).drop_last()) == 0);
                    assert(rows_size(rows_view(t.rows@)) == size);
                    assert forall|k: int| 0 <= k < self.tables@.len() implies #[trigger] is_sorted(rows_view(self.tables@[k].rows@)) by {
                        if k < old_tables.len() {
                            assert(self.tables@[k] == old_tables[k]);
                        }
                    }
                    assert(ids_issued(rows_view(t.rows@), self.used_row_ids@)) by {
                        assert forall|k: int| 0 <= k < rows_view(t.rows@).len() implies self.used_row_ids@.contains(#[trigger] rows_view(t.rows@)[k].row_id) by {
                            assert(rows_view(t.rows@)[k] == rv);
                        }
                    }
                    assert forall|k: int| 0 <= k < self.tables@.len() implies #[trigger] ids_distinct(rows_view(self.tables@[k].rows@))
                        && ids_issued(rows_view(self.tables@[k].rows@), self.used_row_ids@) by {
                        if k < old_tables.len() {
                            assert(self.tables@[k] == old_tables[k]);
                        }
                    }
                    assert forall|k: int| 0 <= k < self.tables@.len() implies #[trigger] ids_issued(rows_view(self.tables@[k].rows@), self.used_row_ids@) by {
                        assert(ids_distinct(rows_view(self.tables@[k].rows@)));
                    }
                    assert forall|a: int, k: int| 0 <= a < self.tables@.len() && self.tables@[a].timeline.is_none() && 0 <= k < self.tables@[a].rows@.len()
                        implies (#[trigger] self.tables@[a].rows@[k]).time == TIMELESS_TIME by {
                        if a < old_tables.len() {
                            assert(self.tables@[a] == old_tables[a]);
                        }
                    }
                    assert forall|a: int, b: int| 0 <= a < b < self.tables@.len() implies table_key(self.tables@[a]) != table_key(self.tables@[b]) by {
                        assert(self.tables@[a] == old_tables[a]);
                        if b < old_tables.len() {
                            assert(self.tables@[b] == old_tables[b]);
                        }
                    }
                    assert forall|e: Seq<char>, tl: Option<Seq<char>>| (e, tl) != key implies
                        #[trigger] rows_of(self.tables@, e, tl) == rows_of(old_tables, e, tl) by {}
                }
            },
        }
        if timeline.is_none() {
            self.timeless_stats.num_rows = self.timeless_stats.num_rows + 1;
            self.timeless_stats.num_bytes = self.timeless_stats.num_bytes + size;
        } else {
            self.temporal_stats.num_rows = self.temporal_stats.num_rows + 1;
            self.temporal_stats.num_bytes = self.temporal_stats.num_bytes + size;
        }
        pos_r
    }
}

/// Bytes that `rows` copies of a row of `size` bytes hold.
pub open spec fn bytes_for(rows: nat, size: nat) -> nat {
    rows * size
}

/// `new_rows` is `old_rows` with `r` inserted at one position.
pub open spec fn added_row(old_rows: Seq<RowView>, new_rows: Seq<RowView>, r: RowView) -> bool {
    exists|pos: int| 0 <= pos <= old_rows.len() && new_rows == old_rows.insert(pos, r)
}

/// No later entry of the time point names the timeline of entry `k`.
pub open spec fn is_last_entry(tp: Seq<(Seq<char>, i64)>, k: int) -> bool {
    forall|k2: int| k < k2 < tp.len() ==> tp[k2].0 != tp[k].0
}

pub open spec fn indexed_among(tp: Seq<(Seq<char>, i64)>, j: int, name: Seq<char>) -> bool {
    exists|k: int| 0 <= k < j && tp[k].0 == name && is_last_entry(tp, k)
}

/// What an insertion of row `row_id` with `cells` under `entity` at time point
/// `tp` does to the rows of `(e, tl)`.
pub open spec fn insertion_effect(
    old_rows: Seq<RowView>,
    new_rows: Seq<RowView>,
    e: Seq<char>,
    tl: Option<Seq<char>>,
    entity: Seq<char>,
    row_id: u64,
    tp: Seq<(Seq<char>, i64)>,
    cells: Seq<CellView>,
) -> bool {
    if e == entity && tp.len() == 0 && tl.is_none() {
        added_row(old_rows, new_rows, RowView { row_id, time: TIMELESS_TIME, cells })
    } else if e == entity && tl.is_some() && time_for(tp, tl.unwrap()).is_some() {
        added_row(old_rows, new_rows, RowView { row_id, time: time_for(tp, tl.unwrap()).unwrap(), cells })
    } else {
        new_rows == old_rows
    }
}

pub proof fn lemma_time_for_last(tp: Seq<(Seq<char>, i64)>, k: int)
    requires
        0 <= k < tp.len(),
        is_last_entry(tp, k),
    ensures
        time_for(tp, tp[k].0) == Some(tp[k].1),
    decreases tp.len(),
{
    if k < tp.len() - 1 {
        let init = tp.drop_last();
        assert(tp.last().0 != tp[k].0);
        assert(init[k] == tp[k]);
        assert forall|k2: int| k < k2 < init.len() implies init[k2].0 != init[k].0 by {
            assert(init[k2] == tp[k2]);
        }
        lemma_time_for_last(init, k);
    }
}

pub proof fn lemma_time_for_some(tp: Seq<(Seq<char>, i64)>, name: Seq<char>)
    ensures
        time_for(tp, name).is_some() <==> indexed_among(tp, tp.len() as int, name),
    decreases tp.len(),
{
    if tp.len() > 0 {
        let init = tp.drop_last();
        lemma_time_for_some(init, name);
        let n = tp.len() - 1;
        if tp.last().0 == name {
            assert(is_last_entry(tp, n));
            assert(0 <= n < tp.len() && tp[n].0 == name && is_last_entry(tp, n));
        } else if time_for(init, name).is_some() {
            let k = choose|k: int| 0 <= k < init.len() && init[k].0 == name && is_last_entry(init, k);
            assert(tp[k] == init[k]);
            assert forall|k2: int| k < k2 < tp.len() implies tp[k2].0 != tp[k].0 by {
                if k2 < n {
                    assert(init[k2] == tp[k2]);
                }
            }
            assert(0 <= k < tp.len() && tp[k].0 == name && is_last_entry(tp, k));
        } else {
            if indexed_among(tp, tp.len() as int, name) {
                let k = choose|k: int| 0 <= k < tp.len() && tp[k].0 == name && is_last_entry(tp, k);
                assert(k != n);
                assert(init[k] == tp[k]);
                assert forall|k2: int| k < k2 < init.len() implies init[k2].0 != init[k].0 by {
                    assert(init[k2] == tp[k2]);
                }
                assert(0 <= k < init.len() && init[k].0 == name && is_last_entry(init, k));
            }
        }
    }
}

fn clone_entries(tp: &Vec<TimeEntry>) -> (r: Vec<TimeEntry>)
    ensures
        entries_view(r@) == entries_view(tp@),
{
    let mut r: Vec<TimeEntry> = Vec::new();
    let mut i: usize = 0;
    while i < tp.len()
        invariant
            i <= tp@.len(),
            r@.len() == i,
            forall|k: int| 0 <= k < i ==> r@[k].timeline@ == tp@[k].timeline@ && r@[k].time == tp@[k].time,
        decreases tp@.len() - i,
    {
        r.push(TimeEntry { timeline: tp[i].timeline.clone(), time: tp[i].time });
        i += 1;
    }
    assert(entries_view(r@) =~= entries_view(tp@));
    r
}

fn is_last_exec(tp: &Vec<TimeEntry>, k: usize) -> (r: bool)
    requires
        k < tp@.len(),
    ensures
        r == is_last_entry(entries_view(tp@), k as int),
{
    let ghost v = entries_view(tp@);
    let n = tp.len();
    let mut k2: usize = k + 1;
    while k2 < tp.len()
        invariant
            k < k2 <= tp@.len(),
            v == entries_view(tp@),
            forall|x: int| k < x < k2 ==> v[x].0 != v[k as int].0,
        decreases tp@.len() - k2,
    {
        assert(v[k2 as int].0 == tp@[k2 as int].timeline@);
        assert(v[k as int].0 == tp@[k as int].timeline@);
        if tp[k2].timeline == tp[k].timeline {
            assert(v[k2 as int].0 == tp@[k2 as int].timeline@);
            assert(v[k as int].0 == tp@[k as int].timeline@);
            return false;
        }
        k2 += 1;
    }
    true
}

fn contains_id(ids: &Vec<u64>, id: u64) -> (r: bool)
    ensures
        r == ids@.contains(id),
{
    let mut i: usize = 0;
    while i < ids.len()
        invariant
            i <= ids@.len(),
            forall|k: int| 0 <= k < i ==> ids@[k] != id,
        decreases ids@.len() - i,
    {
        if ids[i] == id {
            assert(ids@[i as int] == id);
            return true;
        }
        i += 1;
    }
    false
}

impl DataStore {
    /// Adds a row: to the timeless index of `entity` where `timepoint` is
    /// empty, else to the index of `entity` on each timeline that `timepoint`
    /// names (where it names one twice, its last entry counts). Fails, and
    /// changes nothing, where `row_id` was used before.
    pub fn insert(&mut self, entity: &String, row_id: u64, timepoint: &Vec<TimeEntry>, cells: &Vec<DataCell>) -> (r: Result<StoreEvent, StoreError>)
        requires
            old(self).wf(),
            old(self).timeless_stats.num_rows + old(self).temporal_stats.num_rows + timepoint@.len() + 1 <= u64::MAX,
            old(self).timeless_stats.num_bytes + old(self).temporal_stats.num_bytes
                + (timepoint@.len() + 1) * cells_size(cells_view(cells@)) <= u64::MAX,
        ensures
            final(self).wf(),
            old(self).used_row_ids@.contains(row_id) <==> r is Err,
            r is Err ==> r == Err::<StoreEvent, StoreError>(StoreError::DuplicateRowId(row_id)) && *final(self) == *old(self),
            r is Ok ==> {
                let ev = r->Ok_0;
                &&& final(self).used_row_ids@ == old(self).used_row_ids@.push(row_id)
                &&& timepoint@.len() == 0 ==> final(self).timeless_stats.num_rows == old(self).timeless_stats.num_rows + 1
                    && final(self).timeless_stats.num_bytes == old(self).timeless_stats.num_bytes + cells_size(cells_view(cells@))
                    && final(self).temporal_stats == old(self).temporal_stats
                &&& timepoint@.len() > 0 ==> final(self).timeless_stats == old(self).timeless_stats
                    && exists|added: nat| 1 <= added <= timepoint@.len()
                        && final(self).temporal_stats.num_rows == old(self).temporal_stats.num_rows + added
                        && final(self).temporal_stats.num_bytes == old(self).temporal_stats.num_bytes + #[trigger] bytes_for(added, cells_size(cells_view(cells@)))
                &&& ev.kind == StoreEventKind::Insertion
                &&& ev.entity@ == entity@
                &&& ev.row_id == row_id
                &&& entries_view(ev.times@) == entries_view(timepoint@)
                &&& cells_view(ev.cells@) == cells_view(cells@)
                &&& forall|e: Seq<char>, tl: Option<Seq<char>>| #[trigger] insertion_effect(
                    old(self).rows(e, tl), final(self).rows(e, tl), e, tl, entity@, row_id,
                    entries_view(timepoint@), cells_view(cells@))
                &&& forall|e: Seq<char>, tl: Seq<char>, t: i64, c: Seq<char>| !ev.touches_latest(e, tl, t, c)
                    ==> #[trigger] final(self).latest_at_view(e, tl, t, c) == old(self).latest_at_view(e, tl, t, c)
                &&& forall|e: Seq<char>, tl: Seq<char>, lo: i64, hi: i64, cs: Seq<Seq<char>>| !ev.touches_range(e, tl, lo, hi, cs)
                    ==> #[trigger] final(self).range_view(e, tl, lo, hi, cs) == old(self).range_view(e, tl, lo, hi, cs)
            },
    {
        if contains_id(&self.used_row_ids, row_id) {
            return Err(StoreError::DuplicateRowId(row_id));
        }
        let ghost old_self = *self;
        let ghost tp = entries_view(timepoint@);
        let ghost cv = cells_view(cells@);
        let ghost csize = cells_size(cv);
        proof {
            assert(csize <= (timepoint@.len() + 1) * csize) by (nonlinear_arith);
        }
        let size = match size_of_cells(cells) { Some(n) => n, None => 0 };
        assert(size == csize);
        self.used_row_ids.push(row_id);
        proof {
            assert forall|i: int| 0 <= i < self.tables@.len() implies #[trigger] ids_issued(rows_view(self.tables@[i].rows@), self.used_row_ids@) by {
                assert(ids_issued(rows_view(old_self.tables@[i].rows@), old_self.used_row_ids@));
                lemma_ids_issued_grow(rows_view(self.tables@[i].rows@), old_self.used_row_ids@, row_id);
            }
            assert(self.used_row_ids@.contains(row_id)) by {
                assert(self.used_row_ids@[self.used_row_ids@.len() - 1] == row_id);
            }
            assert forall|e: Seq<char>, tl: Option<Seq<char>>, k: int| 0 <= k < old_self.rows(e, tl).len()
                implies (#[trigger] old_self.rows(e, tl)[k]).row_id != row_id by {
                lemma_rows_of_issued(old_self.tables@, old_self.used_row_ids@, e, tl);
                assert(old_self.used_row_ids@.contains(old_self.rows(e, tl)[k].row_id));
            }
        }
        let ghost mut added: nat = 0;
        if timepoint.len() == 0 {
            let row = IndexedRow { row_id, time: TIMELESS_TIME, cells: clone_cells(cells) };
            assert(self.tables == old_self.tables);
            assert forall|k: int| 0 <= k < self.rows(entity@, None).len()
                implies (#[trigger] self.rows(entity@, None)[k]).row_id != row_id by {
                assert(self.rows(entity@, None)[k] == old_self.rows(entity@, None)[k]);
            }
            let pos = self.add_row(entity, &None, row, size);
            proof {
                assert forall|e: Seq<char>, tl: Option<Seq<char>>| #[trigger] insertion_effect(
                    old_self.rows(e, tl), self.rows(e, tl), e, tl, entity@, row_id, tp, cv) by {
                    if e == entity@ && tl.is_none() {
                        assert(self.rows(e, tl) == old_self.rows(e, tl).insert(pos as int, RowView { row_id, time: TIMELESS_TIME, cells: cv }));
                    }
                }
            }
        } else {
            let mut j: usize = 0;
            while j < timepoint.len()
                invariant
                    self.wf(),
                    j <= timepoint@.len(),
                    tp == entries_view(timepoint@),
                    cv == cells_view(cells@),
                    size == cells_size(cv),
                    timepoint@.len() > 0,
                    added <= j,
                    self.used_row_ids@ == old_self.used_row_ids@.push(row_id),
                    self.used_row_ids@.contains(row_id),
                    forall|e: Seq<char>, tl: Option<Seq<char>>, k: int| 0 <= k < old_self.rows(e, tl).len()
                        ==> (#[trigger] old_self.rows(e, tl)[k]).row_id != row_id,
                    self.timeless_stats == old_self.timeless_stats,
                    self.temporal_stats.num_rows == old_self.temporal_stats.num_rows + added,
                    self.temporal_stats.num_bytes == old_self.temporal_stats.num_bytes + added * size,
                    j == timepoint@.len() ==> added >= 1,
                    old_self.timeless_stats.num_rows + old_self.temporal_stats.num_rows + timepoint@.len() + 1 <= u64::MAX,
                    old_self.timeless_stats.num_bytes + old_self.temporal_stats.num_bytes + (timepoint@.len() + 1) * size <= u64::MAX,
                    forall|e: Seq<char>, tl: Option<Seq<char>>| #[trigger] self.rows(e, tl) == if e == entity@ && tl.is_some() && indexed_among(tp, j as int, tl.unwrap()) {
                        self.rows(e, tl)
                    } else {
                        old_self.rows(e, tl)
                    },
                    forall|e: Seq<char>, tl: Option<Seq<char>>| e == entity@ && tl.is_some() && indexed_among(tp, j as int, tl.unwrap())
                        ==> added_row(old_self.rows(e, tl), #[trigger] self.rows(e, tl), RowView { row_id, time: time_for(tp, tl.unwrap()).unwrap(), cells: cv }),
                decreases timepoint@.len() - j,
            {
                if is_last_exec(timepoint, j) {
                    let ghost name = tp[j as int].0;
                    let ghost before = *self;
                    proof {
                        lemma_time_for_last(tp, j as int);
                        assert((added + 1) * size <= (timepoint@.len() + 1) * size) by (nonlinear_arith)
                            requires added + 1 <= timepoint@.len() + 1;
                        assert((added + 1) * size == added * size + size) by (nonlinear_arith);
                        if indexed_among(tp, j as int, name) {
                            let k = choose|k: int| 0 <= k < j && tp[k].0 == name && is_last_entry(tp, k);
                            assert(tp[j as int].0 == tp[k].0);
                        }
                    }
                    let row = IndexedRow { row_id, time: timepoint[j].time, cells: clone_cells(cells) };
                    let tl = Some(timepoint[j].timeline.clone());
                    assert(self.rows(entity@, opt_str_view(tl)) == old_self.rows(entity@, Some(name)));
                    assert forall|k: int| 0 <= k < self.rows(entity@, opt_str_view(tl)).len()
                        implies (#[trigger] self.rows(entity@, opt_str_view(tl))[k]).row_id != row_id by {
                        assert(self.rows(entity@, opt_str_view(tl))[k] == old_self.rows(entity@, Some(name))[k]);
                    }
                    let pos = self.add_row(entity, &tl, row, size);
                    proof {
                        added = added + 1;
                        assert(opt_str_view(tl) == Some(name));
                        assert(self.rows(entity@, Some(name)) == old_self.rows(entity@, Some(name)).insert(pos as int, RowView { row_id, time: time_for(tp, name).unwrap(), cells: cv }));
                        assert forall|e: Seq<char>, tl2: Option<Seq<char>>| e == entity@ && tl2.is_some() && indexed_among(tp, j + 1, tl2.unwrap())
                            implies added_row(old_self.rows(e, tl2), #[trigger] self.rows(e, tl2), RowView { row_id, time: time_for(tp, tl2.unwrap()).unwrap(), cells: cv }) by {
                            if tl2 != Some(name) {
                                let k = choose|k: int| 0 <= k < j + 1 && tp[k].0 == tl2.unwrap() && is_last_entry(tp, k);
                                assert(k != j);
                                assert(before.rows(e, tl2) == self.rows(e, tl2));
                            }
                        }
                        assert forall|e: Seq<char>, tl2: Option<Seq<char>>| !(e == entity@ && tl2.is_some() && indexed_among(tp, j + 1, tl2.unwrap()))
                            implies #[trigger] self.rows(e, tl2) == old_self.rows(e, tl2) by {
                            if e == entity@ && tl2 == Some(name) {
                                assert(indexed_among(tp, j + 1, name));
                            }
                            if e == entity@ && tl2.is_some() && indexed_among(tp, j as int, tl2.unwrap()) {
                                let k = choose|k: int| 0 <= k < j && tp[k].0 == tl2.unwrap() && is_last_entry(tp, k);
                                assert(indexed_among(tp, j + 1, tl2.unwrap()));
                            }
                        }
                    }
                } else {
                    proof {
                        assert(j + 1 < timepoint@.len()) by {
                            if j + 1 == timepoint@.len() {
                                assert(is_last_entry(tp, j as int));
                            }
                        }
                        assert forall|name: Seq<char>| indexed_among(tp, j + 1, name) implies indexed_among(tp, j as int, name) by {
                            let k = choose|k: int| 0 <= k < j + 1 && tp[k].0 == name && is_last_entry(tp, k);
                            assert(k != j);
                        }
                        assert forall|name: Seq<char>| indexed_among(tp, j as int, name) implies indexed_among(tp, j + 1, name) by {
                            let k = choose|k: int| 0 <= k < j && tp[k].0 == name && is_last_entry(tp, k);
                            assert(0 <= k < j + 1);
                        }
                    }
                }
                j += 1;
            }
            proof {
                assert forall|e: Seq<char>, tl: Option<Seq<char>>| #[trigger] insertion_effect(
                    old_self.rows(e, tl), self.rows(e, tl), e, tl, entity@, row_id, tp, cv) by {
                    if tl.is_some() {
                        lemma_time_for_some(tp, tl.unwrap());
                    }
                }
            }
        }
        proof {
            if timepoint@.len() > 0 {
                assert(bytes_for(added, size as nat) == added * size);
            }
        }
        let ev = StoreEvent {
            kind: StoreEventKind::Insertion,
            entity: entity.clone(),
            row_id,
            times: clone_entries(timepoint),
            cells: clone_cells(cells),
        };
        proof {
            assert forall|e: Seq<char>, tl: Seq<char>, t: i64, c: Seq<char>| !ev.touches_latest(e, tl, t, c)
                implies #[trigger] self.latest_at_view(e, tl, t, c) == old_self.latest_at_view(e, tl, t, c) by {
                lemma_insertion_frame(old_self, *self, entity@, row_id, tp, cv, e, tl, t, c);
            }
            assert forall|e: Seq<char>, tl: Seq<char>, lo: i64, hi: i64, cs: Seq<Seq<char>>| !ev.touches_range(e, tl, lo, hi, cs)
                implies #[trigger] self.range_view(e, tl, lo, hi, cs) == old_self.range_view(e, tl, lo, hi, cs) by {
                lemma_insertion_range_frame(old_self, *self, entity@, row_id, tp, cv, e, tl, lo, hi, cs);
            }
        }
        Ok(ev)
    }
}

/// The answer of a latest-at query for one component.
pub struct LatestAtHit {
    pub row_id: u64,
    /// `None` where the answer is timeless data.
    pub time: Option<i64>,
    pub bytes: Vec<u8>,
}

pub ghost struct HitView {
    pub row_id: u64,
    pub time: Option<i64>,
    pub bytes: Seq<u8>,
}

impl View for LatestAtHit {
    type V = HitView;

    open spec fn view(&self) -> HitView {
        HitView { row_id: self.row_id, time: self.time, bytes: self.bytes@ }
    }
}

pub open spec fn opt_hit_view(o: Option<LatestAtHit>) -> Option<HitView> {
    match o {
        Some(h) => Some(h@),
        None => None,
    }
}

pub proof fn lemma_rows_of_sorted(tables: Seq<IndexTable>, entity: Seq<char>, timeline: Option<Seq<char>>)
    requires
        forall|i: int| 0 <= i < tables.len() ==> #[trigger] is_sorted(rows_view(tables[i].rows@)),
    ensures
        is_sorted(rows_of(tables, entity, timeline)),
    decreases tables.len(),
{
    if tables.len() > 0 {
        let init = tables.drop_last();
        assert(is_sorted(rows_view(tables[tables.len() - 1].rows@)));
        assert forall|i: int| 0 <= i < init.len() implies #[trigger] is_sorted(rows_view(init[i].rows@)) by {
            assert(init[i] == tables[i]);
            assert(is_sorted(rows_view(tables[i].rows@)));
        }
        lemma_rows_of_sorted(init, entity, timeline);
    }
    assert(is_sorted(Seq::<RowView>::empty()));
}

impl DataStore {
    /// The latest-at answer for `component` of `entity` at `time` on
    /// `timeline`: the last temporal candidate in (time, row id) order, else
    /// the timeless row with the greatest row id that has the component.
    pub open spec fn latest_at_view(&self, entity: Seq<char>, timeline: Seq<char>, time: i64, component: Seq<char>) -> Option<HitView> {
        match latest_in(self.rows(entity, Some(timeline)), time, component) {
            Some(h) => Some(HitView { row_id: h.0, time: Some(h.1), bytes: h.2 }),
            None => match latest_in(self.rows(entity, None), i64::MAX, component) {
                Some(h) => Some(HitView { row_id: h.0, time: None, bytes: h.2 }),
                None => None,
            },
        }
    }

    /// The range answer for `components` of `entity` over `[lo, hi]` on
    /// `timeline`: every temporal row in the span that has one of them.
    pub open spec fn range_view(&self, entity: Seq<char>, timeline: Seq<char>, lo: i64, hi: i64, components: Seq<Seq<char>>) -> Seq<RangeRowView> {
        range_in(self.rows(entity, Some(timeline)), lo, hi, components)
    }

    fn rows_for(&self, entity: &String, timeline: &Option<String>) -> (r: Option<usize>)
        requires
            self.wf(),
        ensures
            match r {
                Some(i) => i < self.tables@.len() && rows_view(self.tables@[i as int].rows@) == self.rows(entity@, opt_str_view(*timeline)),
                None => self.rows(entity@, opt_str_view(*timeline)) == Seq::<RowView>::empty(),
            },
    {
        let r = self.find_table(entity, timeline);
        proof {
            match r {
                Some(i) => lemma_rows_of_at(self.tables@, i as int),
                None => lemma_rows_of_absent(self.tables@, entity@, opt_str_view(*timeline)),
            }
        }
        r
    }

    /// The latest-at answer for one component.
    pub fn latest_at_component(&self, entity: &String, timeline: &String, time: i64, component: &String) -> (r: Option<LatestAtHit>)
        requires
            self.wf(),
        ensures
            opt_hit_view(r) == self.latest_at_view(entity@, timeline@, time, component@),
    {
        let tl = Some(timeline.clone());
        let temporal = match self.rows_for(entity, &tl) {
            Some(i) => latest_in_rows(&self.tables[i].rows, time, component),
            None => None,
        };
        match temporal {
            Some(h) => Some(LatestAtHit { row_id: h.0, time: Some(h.1), bytes: h.2 }),
            None => {
                let timeless = match self.rows_for(entity, &None) {
                    Some(i) => latest_in_rows(&self.tables[i].rows, i64::MAX, component),
                    None => None,
                };
                match timeless {
                    Some(h) => Some(LatestAtHit { row_id: h.0, time: None, bytes: h.2 }),
                    None => None,
                }
            },
        }
    }

    /// For each of `components`, the latest-at answer at `time` on `timeline`.
    pub fn query_latest_at(&self, entity: &String, timeline: &String, time: i64, components: &Vec<String>) -> (r: Vec<Option<LatestAtHit>>)
        requires
            self.wf(),
        ensures
            r@.len() == components@.len(),
            forall|i: int| 0 <= i < r@.len() ==> opt_hit_view(#[trigger] r@[i]) == self.latest_at_view(entity@, timeline@, time, components@[i]@),
    {
        let mut out: Vec<Option<LatestAtHit>> = Vec::new();
        let mut i: usize = 0;
        while i < components.len()
            invariant
                self.wf(),
                i <= components@.len(),
                out@.len() == i,
                forall|k: int| 0 <= k < i ==> opt_hit_view(#[trigger] out@[k]) == self.latest_at_view(entity@, timeline@, time, components@[k]@),
            decreases components@.len() - i,
        {
            out.push(self.latest_at_component(entity, timeline, time, &components[i]));
            i += 1;
        }
        out
    }

    /// The rows of `entity` on `timeline` inside `[lo, hi]` that have one of
    /// `components`, in (time, row id) order, with their cells for them.
    pub fn query_range(&self, entity: &String, timeline: &String, lo: i64, hi: i64, components: &Vec<String>) -> (r: Vec<RangeRow>)
        requires
            self.wf(),
        ensures
            range_rows_view(r@) == self.range_view(entity@, timeline@, lo, hi, strings_view(components@)),
    {
        let tl = Some(timeline.clone());
        match self.rows_for(entity, &tl) {
            Some(i) => range_in_rows(&self.tables[i].rows, lo, hi, components),
            None => {
                assert(range_in(Seq::<RowView>::empty(), lo, hi, strings_view(components@)) == Seq::<RangeRowView>::empty());
                Vec::new()
            },
        }
    }
}

/// A latest-at answer from the temporal index comes from a row at or before
/// the queried time that has the component, and no such row follows it in
/// (time, row id) order: the greatest time wins, then the greatest row id.
/// An answer from timeless data comes only where no temporal row qualifies,
/// and is the timeless row with the greatest row id that has the component.
pub proof fn lemma_latest_at_is_greatest(store: DataStore, entity: Seq<char>, timeline: Seq<char>, time: i64, component: Seq<char>)
    requires
        store.wf(),
    ensures
        ({
            let rows = store.rows(entity, Some(timeline));
            let timeless = store.rows(entity, None);
            match store.latest_at_view(entity, timeline, time, component) {
                Some(hit) => if hit.time.is_some() {
                    exists|i: int|
                        0 <= i < rows.len() && #[trigger] is_candidate(rows[i], time, component)
                        && rows[i].row_id == hit.row_id && hit.time == Some(rows[i].time)
                        && cell_for(rows[i].cells, component) == Some(hit.bytes)
                        && forall|k: int| 0 <= k < rows.len() && is_candidate(rows[k], time, component) ==> crate::index::key_le(rows[k], rows[i])
                } else {
                    (forall|k: int| 0 <= k < rows.len() ==> !is_candidate(rows[k], time, component))
                    && exists|i: int|
                        0 <= i < timeless.len() && #[trigger] is_candidate(timeless[i], i64::MAX, component)
                        && timeless[i].row_id == hit.row_id
                        && cell_for(timeless[i].cells, component) == Some(hit.bytes)
                        && forall|k: int| 0 <= k < timeless.len() && is_candidate(timeless[k], i64::MAX, component) ==> timeless[k].row_id <= timeless[i].row_id
                },
                None => (forall|k: int| 0 <= k < rows.len() ==> !is_candidate(rows[k], time, component))
                    && (forall|k: int| 0 <= k < timeless.len() ==> !is_candidate(timeless[k], i64::MAX, component)),
            }
        }),
{
    let rows = store.rows(entity, Some(timeline));
    let timeless = store.rows(entity, None);
    lemma_rows_of_sorted(store.tables@, entity, Some(timeline));
    lemma_rows_of_sorted(store.tables@, entity, None);
    lemma_rows_of_timeless(store.tables@, entity);
    crate::index::lemma_latest_in_is_greatest(rows, time, component);
    crate::index::lemma_latest_in_is_greatest(timeless, i64::MAX, component);
    match latest_in(rows, time, component) {
        Some(h) => {
            let i = choose|i: int|
                0 <= i < rows.len() && is_candidate(rows[i], time, component) && rows[i].row_id
                    == h.0 && rows[i].time == h.1 && cell_for(rows[i].cells, component)
                    == Some(h.2) && forall|k: int|
                    0 <= k < rows.len() && is_candidate(rows[k], time, component) ==> crate::index::key_le(rows[k], rows[i]);
            assert(is_candidate(rows[i], time, component));
        },
        None => {
            match latest_in(timeless, i64::MAX, component) {
                Some(h) => {
                    let i = choose|i: int|
                        0 <= i < timeless.len() && is_candidate(timeless[i], i64::MAX, component) && timeless[i].row_id
                            == h.0 && timeless[i].time == h.1 && cell_for(timeless[i].cells, component)
                            == Some(h.2) && forall|k: int|
                            0 <= k < timeless.len() && is_candidate(timeless[k], i64::MAX, component) ==> crate::index::key_le(timeless[k], timeless[i]);
                    assert(is_candidate(timeless[i], i64::MAX, component));
                    assert forall|k: int| 0 <= k < timeless.len() && is_candidate(timeless[k], i64::MAX, component) implies timeless[k].row_id <= timeless[i].row_id by {
                        assert(timeless[k].time == TIMELESS_TIME);
                        assert(timeless[i].time == TIMELESS_TIME);
                    }
                },
                None => {},
            }
        },
    }
}

pub proof fn lemma_rows_of_distinct(tables: Seq<IndexTable>, entity: Seq<char>, timeline: Option<Seq<char>>)
    requires
        forall|i: int| 0 <= i < tables.len() ==> #[trigger] ids_distinct(rows_view(tables[i].rows@)),
    ensures
        ids_distinct(rows_of(tables, entity, timeline)),
    decreases tables.len(),
{
    if tables.len() > 0 {
        let init = tables.drop_last();
        assert(ids_distinct(rows_view(tables[tables.len() - 1].rows@)));
        assert forall|i: int| 0 <= i < init.len() implies #[trigger] ids_distinct(rows_view(init[i].rows@)) by {
            assert(init[i] == tables[i]);
            assert(ids_distinct(rows_view(tables[i].rows@)));
        }
        lemma_rows_of_distinct(init, entity, timeline);
    }
}

/// Rows strictly ordered by time, then by row id.
pub open spec fn strictly_sorted(rows: Seq<RowView>) -> bool {
    forall|a: int, b: int| 0 <= a < b < rows.len() ==> rows[a].time < rows[b].time
        || (rows[a].time == rows[b].time && rows[a].row_id < rows[b].row_id)
}

/// Where every row of an index lies in a queried span and has a queried
/// component, a range query returns exactly those rows, once each, in
/// strictly increasing (time, row id) order.
pub proof fn lemma_range_returns_all(store: DataStore, entity: Seq<char>, timeline: Seq<char>, lo: i64, hi: i64, components: Seq<Seq<char>>)
    requires
        store.wf(),
        forall|k: int| 0 <= k < store.rows(entity, Some(timeline)).len() ==> #[trigger] in_range(store.rows(entity, Some(timeline))[k], lo, hi, components),
    ensures
        store.range_view(entity, timeline, lo, hi, components) == store.rows(entity, Some(timeline)).map_values(|r: RowView| crate::index::range_row(r, components)),
        strictly_sorted(store.rows(entity, Some(timeline))),
{
    lemma_rows_of_sorted(store.tables@, entity, Some(timeline));
    lemma_rows_of_distinct(store.tables@, entity, Some(timeline));
    let rows = store.rows(entity, Some(timeline));
    assert forall|a: int, b: int| 0 <= a < b < rows.len() implies rows[a].time < rows[b].time
        || (rows[a].time == rows[b].time && rows[a].row_id < rows[b].row_id) by {
        assert(crate::index::key_le(rows[a], rows[b]));
        assert(rows[a].row_id != rows[b].row_id);
    }
    crate::index::lemma_range_in_all(store.rows(entity, Some(timeline)), lo, hi, components);
}

/// Whether an event about `ev_entity`, at `ev_times` (none for timeless data),
/// with cells `ev_cells`, may change the latest-at answer for `component` of
/// `entity` at `time` on `timeline`.
pub open spec fn event_touches_latest(
    ev_entity: Seq<char>,
    ev_times: Seq<(Seq<char>, i64)>,
    ev_cells: Seq<CellView>,
    entity: Seq<char>,
    timeline: Seq<char>,
    time: i64,
    component: Seq<char>,
) -> bool {
    &&& ev_entity == entity
    &&& cell_for(ev_cells, component).is_some()
    &&& (ev_times.len() == 0 || match time_for(ev_times, timeline) {
        Some(t) => t <= time,
        None => false,
    })
}

impl StoreEvent {
    pub open spec fn touches_latest(&self, entity: Seq<char>, timeline: Seq<char>, time: i64, component: Seq<char>) -> bool {
        event_touches_latest(self.entity@, entries_view(self.times@), cells_view(self.cells@), entity, timeline, time, component)
    }
}

/// Whether an event may change the range answer for `components` of `entity`
/// over `[lo, hi]` on `timeline`. Timeless data takes no part in ranges.
pub open spec fn event_touches_range(
    ev_entity: Seq<char>,
    ev_times: Seq<(Seq<char>, i64)>,
    ev_cells: Seq<CellView>,
    entity: Seq<char>,
    timeline: Seq<char>,
    lo: i64,
    hi: i64,
    components: Seq<Seq<char>>,
) -> bool {
    &&& ev_entity == entity
    &&& exists|k: int| 0 <= k < components.len() && #[trigger] cell_for(ev_cells, components[k]).is_some()
    &&& match time_for(ev_times, timeline) {
        Some(t) => lo <= t <= hi,
        None => false,
    }
}

impl StoreEvent {
    pub open spec fn touches_range(&self, entity: Seq<char>, timeline: Seq<char>, lo: i64, hi: i64, components: Seq<Seq<char>>) -> bool {
        event_touches_range(self.entity@, entries_view(self.times@), cells_view(self.cells@), entity, timeline, lo, hi, components)
    }
}

pub open spec fn no_event_touches_range(events: Seq<StoreEvent>, entity: Seq<char>, timeline: Seq<char>, lo: i64, hi: i64, components: Seq<Seq<char>>) -> bool {
    forall|m: int| 0 <= m < events.len() ==> !(#[trigger] events[m].touches_range(entity, timeline, lo, hi, components))
}

pub proof fn lemma_no_touch_range_sub(events: Seq<StoreEvent>, a: int, b: int, entity: Seq<char>, timeline: Seq<char>, lo: i64, hi: i64, components: Seq<Seq<char>>)
    requires
        0 <= a <= b <= events.len(),
        no_event_touches_range(events, entity, timeline, lo, hi, components),
    ensures
        no_event_touches_range(events.subrange(a, b), entity, timeline, lo, hi, components),
{
    let sub = events.subrange(a, b);
    assert forall|m: int| 0 <= m < sub.len() implies !(#[trigger] sub[m].touches_range(entity, timeline, lo, hi, components)) by {
        assert(sub[m] == events[m + a]);
    }
}

pub open spec fn no_event_touches(events: Seq<StoreEvent>, entity: Seq<char>, timeline: Seq<char>, time: i64, component: Seq<char>) -> bool {
    forall|m: int| 0 <= m < events.len() ==> !(#[trigger] events[m].touches_latest(entity, timeline, time, component))
}

/// A capacity budget for each temporal index.
#[derive(Clone, Copy, Debug, PartialEq, Eq)]
pub struct GcPolicy {
    pub max_rows: u64,
    pub max_bytes: u64,
}

pub open spec fn within_budget(rows: Seq<RowView>, policy: GcPolicy) -> bool {
    rows.len() <= policy.max_rows && rows_size(rows) <= policy.max_bytes
}

/// What a garbage collection removed: one eviction event per row, in
/// eviction order.
pub struct GcReport {
    pub events: Vec<StoreEvent>,
    pub num_rows_removed: u64,
    pub num_bytes_removed: u64,
}

pub proof fn lemma_contribution_le(tables: Seq<IndexTable>, i: int, timeless: bool, bytes: bool)
    requires
        0 <= i < tables.len(),
    ensures
        contribution(tables[i], timeless, bytes) <= partition_sum(tables, timeless, bytes),
    decreases tables.len(),
{
    if i < tables.len() - 1 {
        assert(tables.drop_last()[i] == tables[i]);
        lemma_contribution_le(tables.drop_last(), i, timeless, bytes);
    }
}

pub proof fn lemma_rows_size_prefix(rows: Seq<RowView>, k: int)
    requires
        0 <= k <= rows.len(),
    ensures
        rows_size(rows.subrange(0, k)) <= rows_size(rows),
    decreases rows.len(),
{
    if k < rows.len() {
        lemma_rows_size_prefix(rows.drop_last(), k);
        assert(rows.drop_last().subrange(0, k) =~= rows.subrange(0, k));
    } else {
        assert(rows.subrange(0, k) =~= rows);
    }
}

fn size_of_rows(rows: &Vec<IndexedRow>, bound: u64) -> (r: u64)
    requires
        rows_size(rows_view(rows@)) <= bound,
    ensures
        r == rows_size(rows_view(rows@)),
{
    let ghost v = rows_view(rows@);
    let mut total: u64 = 0;
    let mut i: usize = 0;
    while i < rows.len()
        invariant
            v == rows_view(rows@),
            rows_size(v) <= bound,
            i <= rows@.len(),
            total == rows_size(v.subrange(0, i as int)),
        decreases rows@.len() - i,
    {
        assert(v.subrange(0, i + 1).drop_last() =~= v.subrange(0, i as int));
        proof {
            lemma_rows_size_prefix(v, i + 1);
        }
        let n = match size_of_cells(&rows[i].cells) { Some(n) => n, None => 0 };
        total = total + n;
        i += 1;
    }
    assert(v.subrange(0, i as int) =~= v);
    total
}

impl DataStore {
    /// Evicts the oldest rows of temporal index `i` while it is over budget,
    /// stopping at a row that holds the most recent value of a component.
    fn collect_table(&mut self, i: usize, policy: &GcPolicy, events: &mut Vec<StoreEvent>, removed: &mut DataStoreRowStats)
        requires
            old(self).wf(),
            i < old(self).tables@.len(),
            old(self).tables@[i as int].timeline.is_some(),
            old(removed).num_rows + old(self).temporal_stats.num_rows <= u64::MAX,
            old(removed).num_bytes + old(self).temporal_stats.num_bytes <= u64::MAX,
            old(events)@.len() == old(removed).num_rows,
            forall|m: int| 0 <= m < old(events)@.len() ==> (#[trigger] old(events)@[m]).kind == StoreEventKind::Eviction && old(events)@[m].times@.len() == 1,
        ensures
            final(events)@.len() == final(removed).num_rows,
            forall|m: int| 0 <= m < final(events)@.len() ==> (#[trigger] final(events)@[m]).kind == StoreEventKind::Eviction && final(events)@[m].times@.len() == 1,
            final(self).wf(),
            final(self).used_row_ids == old(self).used_row_ids,
            final(self).tables@.len() == old(self).tables@.len(),
            forall|k: int| 0 <= k < old(self).tables@.len() && k != i ==> #[trigger] final(self).tables@[k] == old(self).tables@[k],
            table_key(final(self).tables@[i as int]) == table_key(old(self).tables@[i as int]),
            final(removed).num_rows + final(self).temporal_stats.num_rows == old(removed).num_rows + old(self).temporal_stats.num_rows,
            final(removed).num_bytes + final(self).temporal_stats.num_bytes == old(removed).num_bytes + old(self).temporal_stats.num_bytes,
            final(self).timeless_stats == old(self).timeless_stats,
            ({
                let before = rows_view(old(self).tables@[i as int].rows@);
                let after = rows_view(final(self).tables@[i as int].rows@);
                &&& exists|n: int| 0 <= n <= before.len() && after == #[trigger] before.subrange(n, before.len() as int)
                    && (n == 0 || !within_budget(before.subrange(n - 1, before.len() as int), *policy))
                &&& within_budget(after, *policy) || crate::index::front_is_pinned(after)
                &&& forall|c: Seq<char>| #[trigger] latest_in(after, i64::MAX, c) == latest_in(before, i64::MAX, c)
                &&& forall|t: i64, c: Seq<char>| no_event_touches(final(events)@.subrange(old(events)@.len() as int, final(events)@.len() as int),
                    table_key(old(self).tables@[i as int]).0, table_key(old(self).tables@[i as int]).1.unwrap(), t, c)
                    ==> #[trigger] latest_in(after, t, c) == latest_in(before, t, c)
                &&& forall|lo: i64, hi: i64, cs: Seq<Seq<char>>| no_event_touches_range(final(events)@.subrange(old(events)@.len() as int, final(events)@.len() as int),
                    table_key(old(self).tables@[i as int]).0, table_key(old(self).tables@[i as int]).1.unwrap(), lo, hi, cs)
                    ==> #[trigger] range_in(after, lo, hi, cs) == range_in(before, lo, hi, cs)
            }),
            final(events)@.len() >= old(events)@.len(),
            final(events)@.subrange(0, old(events)@.len() as int) == old(events)@,
    {
        let ghost start = *self;
        let ghost ev_start = events@;
        let ghost key = table_key(self.tables@[i as int]);
        let ghost before = rows_view(self.tables@[i as int].rows@);
        proof {
            lemma_contribution_le(self.tables@, i as int, false, true);
        }
        let mut bytes = size_of_rows(&self.tables[i].rows, self.temporal_stats.num_bytes);
        let mut done = false;
        let ghost mut n: int = 0;
        while !done
            invariant
                self.wf(),
                self.used_row_ids == start.used_row_ids,
                self.tables@.len() == start.tables@.len(),
                i < self.tables@.len(),
                forall|k: int| 0 <= k < start.tables@.len() && k != i ==> #[trigger] self.tables@[k] == start.tables@[k],
                table_key(self.tables@[i as int]) == key,
                key.1.is_some(),
                self.tables@[i as int].timeline.is_some(),
                removed.num_rows + self.temporal_stats.num_rows == old(removed).num_rows + start.temporal_stats.num_rows,
                removed.num_bytes + self.temporal_stats.num_bytes == old(removed).num_bytes + start.temporal_stats.num_bytes,
                self.timeless_stats == start.timeless_stats,
                old(removed).num_rows + start.temporal_stats.num_rows <= u64::MAX,
                old(removed).num_bytes + start.temporal_stats.num_bytes <= u64::MAX,
                events@.len() == removed.num_rows,
                forall|m: int| 0 <= m < events@.len() ==> (#[trigger] events@[m]).kind == StoreEventKind::Eviction && events@[m].times@.len() == 1,
                bytes == rows_size(rows_view(self.tables@[i as int].rows@)),
                0 <= n <= before.len(),
                rows_view(self.tables@[i as int].rows@) == before.subrange(n, before.len() as int),
                n == 0 || !within_budget(before.subrange(n - 1, before.len() as int), *policy),
                done ==> within_budget(rows_view(self.tables@[i as int].rows@), *policy) || crate::index::front_is_pinned(rows_view(self.tables@[i as int].rows@)),
                forall|c: Seq<char>| #[trigger] latest_in(rows_view(self.tables@[i as int].rows@), i64::MAX, c) == latest_in(before, i64::MAX, c),
                forall|t: i64, c: Seq<char>| no_event_touches(events@.subrange(ev_start.len() as int, events@.len() as int), key.0, key.1.unwrap(), t, c)
                    ==> #[trigger] latest_in(rows_view(self.tables@[i as int].rows@), t, c) == latest_in(before, t, c),
                forall|lo: i64, hi: i64, cs: Seq<Seq<char>>| no_event_touches_range(events@.subrange(ev_start.len() as int, events@.len() as int), key.0, key.1.unwrap(), lo, hi, cs)
                    ==> #[trigger] range_in(rows_view(self.tables@[i as int].rows@), lo, hi, cs) == range_in(before, lo, hi, cs),
                events@.len() >= ev_start.len(),
                events@.subrange(0, ev_start.len() as int) == ev_start,
            decreases before.len() - n + (if done { 0int } else { 1int }),
        {
            let len = self.tables[i].rows.len();
            if (len as u64 <= policy.max_rows && bytes <= policy.max_bytes) || len == 0 {
                done = true;
            } else if crate::index::front_is_pinned_exec(&self.tables[i].rows) {
                done = true;
            } else {
                let ghost old_tables = self.tables@;
                let ghost cur = rows_view(self.tables@[i as int].rows@);
                let ghost evs = events@;
                let row = self.tables[i].rows.remove(0);
                let ghost r0 = row@;
                let size = match size_of_cells(&row.cells) { Some(n) => n, None => 0 };
                proof {
                    let t = self.tables@[i as int];
                    assert(self.tables@ == old_tables.update(i as int, t));
                    assert(cur =~= rows_view(t.rows@).insert(0, r0));
                    crate::store::lemma_rows_size_insert(rows_view(t.rows@), 0, r0);
                    lemma_partition_update(old_tables, i as int, t, true, true);
                    lemma_partition_update(old_tables, i as int, t, true, false);
                    lemma_partition_update(old_tables, i as int, t, false, true);
                    lemma_partition_update(old_tables, i as int, t, false, false);
                    lemma_contribution_le(old_tables, i as int, false, true);
                    lemma_contribution_le(old_tables, i as int, false, false);
                    assert(rows_view(t.rows@) =~= cur.subrange(1, cur.len() as int));
                    assert(rows_view(t.rows@) =~= before.subrange(n + 1, before.len() as int));
                    assert(!within_budget(cur, *policy));
                    n = n + 1;
                    assert forall|c: Seq<char>| #[trigger] latest_in(rows_view(t.rows@), i64::MAX, c) == latest_in(cur, i64::MAX, c) by {
                        assert(cur.subrange(1, cur.len() as int) =~= rows_view(t.rows@));
                        crate::index::lemma_drop_unpinned_front(cur, c);
                    }
                    assert(is_sorted(cur));
                    assert(is_sorted(rows_view(t.rows@))) by {
                        assert forall|a: int, b: int| 0 <= a < b < rows_view(t.rows@).len() implies crate::index::key_le(rows_view(t.rows@)[a], rows_view(t.rows@)[b]) by {
                            assert(rows_view(t.rows@)[a] == cur[a + 1]);
                            assert(rows_view(t.rows@)[b] == cur[b + 1]);
                        }
                    }
                    assert forall|k: int| 0 <= k < self.tables@.len() implies #[trigger] is_sorted(rows_view(self.tables@[k].rows@)) by {
                        if k != i {
                            assert(self.tables@[k] == old_tables[k]);
                        }
                    }
                    assert(ids_distinct(cur));
                    assert(ids_issued(cur, self.used_row_ids@));
                    lemma_ids_suffix(cur, 1, self.used_row_ids@);
                    assert forall|k: int| 0 <= k < self.tables@.len() implies #[trigger] ids_distinct(rows_view(self.tables@[k].rows@))
                        && ids_issued(rows_view(self.tables@[k].rows@), self.used_row_ids@) by {
                        if k != i {
                            assert(self.tables@[k] == old_tables[k]);
                        }
                    }
                    assert forall|k: int| 0 <= k < self.tables@.len() implies #[trigger] ids_issued(rows_view(self.tables@[k].rows@), self.used_row_ids@) by {
                        assert(ids_distinct(rows_view(self.tables@[k].rows@)));
                    }
                    assert forall|a: int, b: int| 0 <= a < b < self.tables@.len() implies table_key(self.tables@[a]) != table_key(self.tables@[b]) by {
                        assert(table_key(self.tables@[a]) == table_key(old_tables[a]));
                        assert(table_key(self.tables@[b]) == table_key(old_tables[b]));
                    }
                    assert forall|a: int, k: int| 0 <= a < self.tables@.len() && self.tables@[a].timeline.is_none() && 0 <= k < self.tables@[a].rows@.len()
                        implies (#[trigger] self.tables@[a].rows@[k]).time == TIMELESS_TIME by {
                        assert(a != i);
                        assert(self.tables@[a] == old_tables[a]);
                    }
                }
                self.temporal_stats.num_rows = self.temporal_stats.num_rows - 1;
                self.temporal_stats.num_bytes = self.temporal_stats.num_bytes - size;
                removed.num_rows = removed.num_rows + 1;
                removed.num_bytes = removed.num_bytes + size;
                bytes = bytes - size;
                let timeline = match &self.tables[i].timeline { Some(tl) => tl.clone(), None => String::new() };
                let mut times: Vec<TimeEntry> = Vec::new();
                times.push(TimeEntry { timeline, time: row.time });
                let ev = StoreEvent {
                    kind: StoreEventKind::Eviction,
                    entity: self.tables[i].entity.clone(),
                    row_id: row.row_id,
                    times,
                    cells: row.cells,
                };
                events.push(ev);
                proof {
                    let t = self.tables@[i as int];
                    let seg_old = evs.subrange(ev_start.len() as int, evs.len() as int);
                    let seg = events@.subrange(ev_start.len() as int, events@.len() as int);
                    assert(seg =~= seg_old.push(ev));
                    assert(events@.subrange(0, ev_start.len() as int) =~= evs.subrange(0, ev_start.len() as int));
                    let tv = entries_view(ev.times@);
                    assert(tv.drop_last() =~= Seq::<(Seq<char>, i64)>::empty());
                    assert(time_for(tv, key.1.unwrap()) == Some(r0.time));
                    assert forall|tt: i64, c: Seq<char>| no_event_touches(seg, key.0, key.1.unwrap(), tt, c)
                        implies #[trigger] latest_in(rows_view(t.rows@), tt, c) == latest_in(before, tt, c) by {
                        assert(!seg[seg.len() - 1].touches_latest(key.0, key.1.unwrap(), tt, c));
                        assert(no_event_touches(seg_old, key.0, key.1.unwrap(), tt, c)) by {
                            assert forall|m: int| 0 <= m < seg_old.len() implies !(#[trigger] seg_old[m].touches_latest(key.0, key.1.unwrap(), tt, c)) by {
                                assert(seg[m] == seg_old[m]);
                            }
                        }
                        assert(latest_in(cur, tt, c) == latest_in(before, tt, c));
                        assert(!is_candidate(r0, tt, c));
                        lemma_latest_in_insert_other(rows_view(t.rows@), 0, r0, tt, c);
                    }
                    assert forall|lo: i64, hi: i64, cs: Seq<Seq<char>>| no_event_touches_range(seg, key.0, key.1.unwrap(), lo, hi, cs)
                        implies #[trigger] range_in(rows_view(t.rows@), lo, hi, cs) == range_in(before, lo, hi, cs) by {
                        assert(!seg[seg.len() - 1].touches_range(key.0, key.1.unwrap(), lo, hi, cs));
                        assert(no_event_touches_range(seg_old, key.0, key.1.unwrap(), lo, hi, cs)) by {
                            assert forall|m: int| 0 <= m < seg_old.len() implies !(#[trigger] seg_old[m].touches_range(key.0, key.1.unwrap(), lo, hi, cs)) by {
                                assert(seg[m] == seg_old[m]);
                            }
                        }
                        assert(range_in(cur, lo, hi, cs) == range_in(before, lo, hi, cs));
                        assert(!in_range(r0, lo, hi, cs)) by {
                            if in_range(r0, lo, hi, cs) {
                                let k = choose|k: int| 0 <= k < cs.len() && #[trigger] cell_for(r0.cells, cs[k]).is_some();
                                assert(cells_view(ev.cells@) == r0.cells);
                                assert(cell_for(cells_view(ev.cells@), cs[k]).is_some());
                            }
                        }
                        lemma_range_in_insert_other(rows_view(t.rows@), 0, r0, lo, hi, cs);
                    }
                }
            }
        }
    }
}

pub proof fn lemma_rows_of_cases(tables: Seq<IndexTable>, entity: Seq<char>, timeline: Option<Seq<char>>)
    requires
        keys_unique(tables),
    ensures
        (exists|i: int| 0 <= i < tables.len() && #[trigger] table_key(tables[i]) == (entity, timeline)
            && rows_of(tables, entity, timeline) == rows_view(tables[i].rows@))
        || ((forall|i: int| 0 <= i < tables.len() ==> #[trigger] table_key(tables[i]) != (entity, timeline))
            && rows_of(tables, entity, timeline) == Seq::<RowView>::empty()),
{
    if exists|i: int| 0 <= i < tables.len() && #[trigger] table_key(tables[i]) == (entity, timeline) {
        let i = choose|i: int| 0 <= i < tables.len() && #[trigger] table_key(tables[i]) == (entity, timeline);
        lemma_rows_of_at(tables, i);
    } else {
        lemma_rows_of_absent(tables, entity, timeline);
    }
}

pub proof fn lemma_no_touch_sub(events: Seq<StoreEvent>, a: int, b: int, entity: Seq<char>, timeline: Seq<char>, time: i64, component: Seq<char>)
    requires
        0 <= a <= b <= events.len(),
        no_event_touches(events, entity, timeline, time, component),
    ensures
        no_event_touches(events.subrange(a, b), entity, timeline, time, component),
{
    let sub = events.subrange(a, b);
    assert forall|m: int| 0 <= m < sub.len() implies !(#[trigger] sub[m].touches_latest(entity, timeline, time, component)) by {
        assert(sub[m] == events[m + a]);
    }
}

/// The rows of one temporal index after a collection: the oldest went first,
/// each while the index was over budget, and the rest is within budget
/// unless its oldest row is pinned.
pub open spec fn evicted_oldest_first(before: Seq<RowView>, after: Seq<RowView>, policy: GcPolicy) -> bool {
    &&& exists|n: int| 0 <= n <= before.len() && after == #[trigger] before.subrange(n, before.len() as int)
        && (n == 0 || !within_budget(before.subrange(n - 1, before.len() as int), policy))
    &&& within_budget(after, policy) || crate::index::front_is_pinned(after)
}

/// What a collection guarantees of the rows of one temporal index of
/// `entity` on `timeline`: the oldest rows went first, the rest is within
/// budget unless its oldest row is pinned, every component keeps its most
/// recent value, and no latest-at or range answer changed that no event
/// touches.
pub open spec fn collected_rows(before: Seq<RowView>, after: Seq<RowView>, events: Seq<StoreEvent>, entity: Seq<char>, timeline: Seq<char>, policy: GcPolicy) -> bool {
    &&& evicted_oldest_first(before, after, policy)
    &&& forall|c: Seq<char>| #[trigger] latest_in(after, i64::MAX, c) == latest_in(before, i64::MAX, c)
    &&& forall|t: i64, c: Seq<char>| no_event_touches(events, entity, timeline, t, c)
        ==> #[trigger] latest_in(after, t, c) == latest_in(before, t, c)
    &&& forall|lo: i64, hi: i64, cs: Seq<Seq<char>>| no_event_touches_range(events, entity, timeline, lo, hi, cs)
        ==> #[trigger] range_in(after, lo, hi, cs) == range_in(before, lo, hi, cs)
}

pub open spec fn collected(start: IndexTable, now: IndexTable, events: Seq<StoreEvent>, policy: GcPolicy) -> bool {
    collected_rows(rows_view(start.rows@), rows_view(now.rows@), events, table_key(start).0, table_key(start).1.unwrap(), policy)
}

impl DataStore {
    /// Evicts, in each temporal index over `policy`'s budget, the oldest rows
    /// first, until the index is within budget or its oldest row holds the
    /// most recent value of one of its components. Timeless data is kept.
    pub fn garbage_collect(&mut self, policy: &GcPolicy) -> (r: GcReport)
        requires
            old(self).wf(),
        ensures
            final(self).wf(),
            final(self).used_row_ids == old(self).used_row_ids,
            final(self).timeless_stats == old(self).timeless_stats,
            r.num_rows_removed + final(self).temporal_stats.num_rows == old(self).temporal_stats.num_rows,
            r.num_bytes_removed + final(self).temporal_stats.num_bytes == old(self).temporal_stats.num_bytes,
            forall|e: Seq<char>| #[trigger] final(self).rows(e, None) == old(self).rows(e, None),
            forall|e: Seq<char>, tl: Seq<char>| #[trigger] evicted_oldest_first(old(self).rows(e, Some(tl)), final(self).rows(e, Some(tl)), *policy),
            forall|e: Seq<char>, tl: Seq<char>, c: Seq<char>| #[trigger] latest_in(final(self).rows(e, Some(tl)), i64::MAX, c)
                == latest_in(old(self).rows(e, Some(tl)), i64::MAX, c),
            forall|e: Seq<char>, tl: Seq<char>, c: Seq<char>| #[trigger] final(self).latest_at_view(e, tl, i64::MAX, c)
                == old(self).latest_at_view(e, tl, i64::MAX, c),
            forall|e: Seq<char>, tl: Seq<char>, t: i64, c: Seq<char>| no_event_touches(r.events@, e, tl, t, c)
                ==> #[trigger] final(self).latest_at_view(e, tl, t, c) == old(self).latest_at_view(e, tl, t, c),
            forall|e: Seq<char>, tl: Seq<char>, lo: i64, hi: i64, cs: Seq<Seq<char>>| no_event_touches_range(r.events@, e, tl, lo, hi, cs)
                ==> #[trigger] final(self).range_view(e, tl, lo, hi, cs) == old(self).range_view(e, tl, lo, hi, cs),
            r.events@.len() == r.num_rows_removed,
            forall|m: int| 0 <= m < r.events@.len() ==> (#[trigger] r.events@[m]).kind == StoreEventKind::Eviction && r.events@[m].times@.len() == 1,
    {
        let ghost start = *self;
        let mut events: Vec<StoreEvent> = Vec::new();
        let mut removed = DataStoreRowStats { num_rows: 0, num_bytes: 0 };
        let mut i: usize = 0;
        while i < self.tables.len()
            invariant
                self.wf(),
                self.used_row_ids == start.used_row_ids,
                self.timeless_stats == start.timeless_stats,
                self.tables@.len() == start.tables@.len(),
                i <= self.tables@.len(),
                removed.num_rows + self.temporal_stats.num_rows == start.temporal_stats.num_rows,
                removed.num_bytes + self.temporal_stats.num_bytes == start.temporal_stats.num_bytes,
                events@.len() == removed.num_rows,
                forall|m: int| 0 <= m < events@.len() ==> (#[trigger] events@[m]).kind == StoreEventKind::Eviction && events@[m].times@.len() == 1,
                forall|k: int| 0 <= k < self.tables@.len() ==> #[trigger] table_key(self.tables@[k]) == table_key(start.tables@[k]),
                forall|k: int| 0 <= k < self.tables@.len() && (k >= i || start.tables@[k].timeline.is_none()) ==> #[trigger] self.tables@[k] == start.tables@[k],
                forall|k: int| 0 <= k < i && start.tables@[k].timeline.is_some() ==> #[trigger] collected(start.tables@[k], self.tables@[k], events@, *policy),
            decreases start.tables@.len() - i,
        {
            if self.tables[i].timeline.is_some() {
                let ghost mid = *self;
                let ghost evs = events@;
                self.collect_table(i, policy, &mut events, &mut removed);
                proof {
                    assert forall|k: int| 0 <= k < self.tables@.len() implies #[trigger] table_key(self.tables@[k]) == table_key(start.tables@[k]) by {
                        if k != i {
                            assert(self.tables@[k] == mid.tables@[k]);
                        }
                    }
                    assert forall|k: int| 0 <= k < i + 1 && start.tables@[k].timeline.is_some() implies #[trigger] collected(start.tables@[k], self.tables@[k], events@, *policy) by {
                        let key = table_key(start.tables@[k]);
                        if k < i {
                            assert(self.tables@[k] == mid.tables@[k]);
                            assert(collected(start.tables@[k], mid.tables@[k], evs, *policy));
                            assert forall|t: i64, c: Seq<char>| no_event_touches(events@, key.0, key.1.unwrap(), t, c)
                                implies #[trigger] latest_in(rows_view(self.tables@[k].rows@), t, c) == latest_in(rows_view(start.tables@[k].rows@), t, c) by {
                                lemma_no_touch_sub(events@, 0, evs.len() as int, key.0, key.1.unwrap(), t, c);
                                assert(events@.subrange(0, evs.len() as int) == evs);
                            }
                            assert forall|lo: i64, hi: i64, cs: Seq<Seq<char>>| no_event_touches_range(events@, key.0, key.1.unwrap(), lo, hi, cs)
                                implies #[trigger] range_in(rows_view(self.tables@[k].rows@), lo, hi, cs) == range_in(rows_view(start.tables@[k].rows@), lo, hi, cs) by {
                                lemma_no_touch_range_sub(events@, 0, evs.len() as int, key.0, key.1.unwrap(), lo, hi, cs);
                                assert(events@.subrange(0, evs.len() as int) == evs);
                            }
                        } else {
                            assert(mid.tables@[k] == start.tables@[k]);
                            assert forall|t: i64, c: Seq<char>| no_event_touches(events@, key.0, key.1.unwrap(), t, c)
                                implies #[trigger] latest_in(rows_view(self.tables@[k].rows@), t, c) == latest_in(rows_view(start.tables@[k].rows@), t, c) by {
                                lemma_no_touch_sub(events@, evs.len() as int, events@.len() as int, key.0, key.1.unwrap(), t, c);
                            }
                            assert forall|lo: i64, hi: i64, cs: Seq<Seq<char>>| no_event_touches_range(events@, key.0, key.1.unwrap(), lo, hi, cs)
                                implies #[trigger] range_in(rows_view(self.tables@[k].rows@), lo, hi, cs) == range_in(rows_view(start.tables@[k].rows@), lo, hi, cs) by {
                                lemma_no_touch_range_sub(events@, evs.len() as int, events@.len() as int, key.0, key.1.unwrap(), lo, hi, cs);
                            }
                        }
                    }
                }
            }
            i += 1;
        }
        proof {
            assert forall|e: Seq<char>| #[trigger] self.rows(e, None) == start.rows(e, None) by {
                lemma_rows_of_cases(self.tables@, e, None);
                lemma_rows_of_cases(start.tables@, e, None);
                if exists|k: int| 0 <= k < self.tables@.len() && #[trigger] table_key(self.tables@[k]) == (e, None::<Seq<char>>) {
                    let k = choose|k: int| 0 <= k < self.tables@.len() && #[trigger] table_key(self.tables@[k]) == (e, None::<Seq<char>>);
                    assert(table_key(start.tables@[k]) == (e, None::<Seq<char>>));
                    assert(self.tables@[k] == start.tables@[k]);
                    lemma_rows_of_at(start.tables@, k);
                } else {
                    assert forall|k: int| 0 <= k < start.tables@.len() implies #[trigger] table_key(start.tables@[k]) != (e, None::<Seq<char>>) by {
                        assert(table_key(self.tables@[k]) == table_key(start.tables@[k]));
                    }
                    lemma_rows_of_absent(start.tables@, e, None);
                }
            }
            assert forall|e: Seq<char>, tl: Seq<char>| #[trigger] collected_rows(start.rows(e, Some(tl)), self.rows(e, Some(tl)), events@, e, tl, *policy) by {
                lemma_rows_of_cases(self.tables@, e, Some(tl));
                if exists|k: int| 0 <= k < self.tables@.len() && #[trigger] table_key(self.tables@[k]) == (e, Some(tl)) {
                    let k = choose|k: int| 0 <= k < self.tables@.len() && #[trigger] table_key(self.tables@[k]) == (e, Some(tl));
                    assert(table_key(start.tables@[k]) == (e, Some(tl)));
                    lemma_rows_of_at(start.tables@, k);
                    lemma_rows_of_at(self.tables@, k);
                    assert(start.tables@[k].timeline.is_some());
                    assert(collected(start.tables@[k], self.tables@[k], events@, *policy));
                } else {
                    assert forall|k: int| 0 <= k < start.tables@.len() implies #[trigger] table_key(start.tables@[k]) != (e, Some(tl)) by {
                        assert(table_key(self.tables@[k]) == table_key(start.tables@[k]));
                    }
                    lemma_rows_of_absent(start.tables@, e, Some(tl));
                    let em = Seq::<RowView>::empty();
                    assert(rows_size(em) == 0);
                    assert(em.subrange(0, 0) =~= em);
                }
            }
            assert forall|e: Seq<char>, tl: Seq<char>| #[trigger] evicted_oldest_first(start.rows(e, Some(tl)), self.rows(e, Some(tl)), *policy) by {
                assert(collected_rows(start.rows(e, Some(tl)), self.rows(e, Some(tl)), events@, e, tl, *policy));
            }
            assert forall|e: Seq<char>, tl: Seq<char>, c: Seq<char>| #[trigger] latest_in(self.rows(e, Some(tl)), i64::MAX, c)
                == latest_in(start.rows(e, Some(tl)), i64::MAX, c) by {
                assert(collected_rows(start.rows(e, Some(tl)), self.rows(e, Some(tl)), events@, e, tl, *policy));
            }
            assert forall|e: Seq<char>, tl: Seq<char>, c: Seq<char>| #[trigger] self.latest_at_view(e, tl, i64::MAX, c)
                == start.latest_at_view(e, tl, i64::MAX, c) by {
                assert(self.rows(e, None) == start.rows(e, None));
                assert(collected_rows(start.rows(e, Some(tl)), self.rows(e, Some(tl)), events@, e, tl, *policy));
                assert(latest_in(self.rows(e, Some(tl)), i64::MAX, c) == latest_in(start.rows(e, Some(tl)), i64::MAX, c));
            }
            assert forall|e: Seq<char>, tl: Seq<char>, t: i64, c: Seq<char>| no_event_touches(events@, e, tl, t, c)
                implies #[trigger] self.latest_at_view(e, tl, t, c) == start.latest_at_view(e, tl, t, c) by {
                assert(self.rows(e, None) == start.rows(e, None));
                assert(collected_rows(start.rows(e, Some(tl)), self.rows(e, Some(tl)), events@, e, tl, *policy));
                assert(latest_in(self.rows(e, Some(tl)), t, c) == latest_in(start.rows(e, Some(tl)), t, c));
            }
            assert forall|e: Seq<char>, tl: Seq<char>, lo: i64, hi: i64, cs: Seq<Seq<char>>| no_event_touches_range(events@, e, tl, lo, hi, cs)
                implies #[trigger] self.range_view(e, tl, lo, hi, cs) == start.range_view(e, tl, lo, hi, cs) by {
                assert(collected_rows(start.rows(e, Some(tl)), self.rows(e, Some(tl)), events@, e, tl, *policy));
            }
        }
        GcReport { events, num_rows_removed: removed.num_rows, num_bytes_removed: removed.num_bytes }
    }
}

/// A latest-at answer that an insertion's event does not touch stays as it was.
pub proof fn lemma_insertion_frame(
    before: DataStore,
    after: DataStore,
    entity: Seq<char>,
    row_id: u64,
    tp: Seq<(Seq<char>, i64)>,
    cells: Seq<CellView>,
    e: Seq<char>,
    tl: Seq<char>,
    t: i64,
    c: Seq<char>,
)
    requires
        forall|e2: Seq<char>, tl2: Option<Seq<char>>| #[trigger] insertion_effect(
            before.rows(e2, tl2), after.rows(e2, tl2), e2, tl2, entity, row_id, tp, cells),
        !event_touches_latest(entity, tp, cells, e, tl, t, c),
    ensures
        after.latest_at_view(e, tl, t, c) == before.latest_at_view(e, tl, t, c),
{
    assert(insertion_effect(before.rows(e, Some(tl)), after.rows(e, Some(tl)), e, Some(tl), entity, row_id, tp, cells));
    assert(insertion_effect(before.rows(e, None), after.rows(e, None), e, None, entity, row_id, tp, cells));
    if e == entity && time_for(tp, tl).is_some() {
        let r = RowView { row_id, time: time_for(tp, tl).unwrap(), cells };
        let pos = choose|pos: int| 0 <= pos <= before.rows(e, Some(tl)).len() && after.rows(e, Some(tl)) == before.rows(e, Some(tl)).insert(pos, r);
        assert(tp.len() > 0);
        assert(!is_candidate(r, t, c));
        lemma_latest_in_insert_other(before.rows(e, Some(tl)), pos, r, t, c);
    }
    if e == entity && tp.len() == 0 {
        let r = RowView { row_id, time: TIMELESS_TIME, cells };
        let pos = choose|pos: int| 0 <= pos <= before.rows(e, None).len() && after.rows(e, None) == before.rows(e, None).insert(pos, r);
        assert(!is_candidate(r, i64::MAX, c));
        lemma_latest_in_insert_other(before.rows(e, None), pos, r, i64::MAX, c);
    }
}

/// Whether `ev` may change the latest-at answer for the given key.
pub fn touches_latest_exec(ev: &StoreEvent, entity: &String, timeline: &String, time: i64, component: &String) -> (r: bool)
    ensures
        r == ev.touches_latest(entity@, timeline@, time, component@),
{
    if !(ev.entity == *entity) {
        return false;
    }
    let found = crate::cell::find_cell(&ev.cells, component);
    if found.is_none() {
        return false;
    }
    assert(cell_for(cells_view(ev.cells@), component@).is_some());
    if ev.times.len() == 0 {
        return true;
    }
    let ghost tp = entries_view(ev.times@);
    let mut i: usize = ev.times.len();
    assert(tp.subrange(0, i as int) =~= tp);
    while i > 0
        invariant
            i <= ev.times@.len(),
            tp == entries_view(ev.times@),
            ev.entity@ == entity@,
            ev.times@.len() > 0,
            cell_for(cells_view(ev.cells@), component@).is_some(),
            time_for(tp, timeline@) == time_for(tp.subrange(0, i as int), timeline@),
        decreases i,
    {
        assert(tp.subrange(0, i as int).drop_last() =~= tp.subrange(0, i - 1));
        assert(tp[i - 1] == (ev.times@[i - 1].timeline@, ev.times@[i - 1].time));
        if ev.times[i - 1].timeline == *timeline {
            assert(time_for(tp.subrange(0, i as int), timeline@) == Some(ev.times@[i - 1].time));
            assert(ev.entity@ == entity@);
            assert(tp.len() > 0);
            assert(time_for(entries_view(ev.times@), timeline@) == Some(ev.times@[i - 1].time));
            assert(cell_for(cells_view(ev.cells@), component@).is_some());
            return ev.times[i - 1].time <= time;
        }
        i -= 1;
    }
    false
}

/// A range answer that an insertion's event does not touch stays as it was.
pub proof fn lemma_insertion_range_frame(
    before: DataStore,
    after: DataStore,
    entity: Seq<char>,
    row_id: u64,
    tp: Seq<(Seq<char>, i64)>,
    cells: Seq<CellView>,
    e: Seq<char>,
    tl: Seq<char>,
    lo: i64,
    hi: i64,
    cs: Seq<Seq<char>>,
)
    requires
        forall|e2: Seq<char>, tl2: Option<Seq<char>>| #[trigger] insertion_effect(
            before.rows(e2, tl2), after.rows(e2, tl2), e2, tl2, entity, row_id, tp, cells),
        !event_touches_range(entity, tp, cells, e, tl, lo, hi, cs),
    ensures
        after.range_view(e, tl, lo, hi, cs) == before.range_view(e, tl, lo, hi, cs),
{
    assert(insertion_effect(before.rows(e, Some(tl)), after.rows(e, Some(tl)), e, Some(tl), entity, row_id, tp, cells));
    if e == entity && time_for(tp, tl).is_some() {
        let r = RowView { row_id, time: time_for(tp, tl).unwrap(), cells };
        let pos = choose|pos: int| 0 <= pos <= before.rows(e, Some(tl)).len() && after.rows(e, Some(tl)) == before.rows(e, Some(tl)).insert(pos, r);
        assert(!in_range(r, lo, hi, cs));
        lemma_range_in_insert_other(before.rows(e, Some(tl)), pos, r, lo, hi, cs);
    }
}

/// Whether `ev` may change the range answer for the given key.
pub fn touches_range_exec(ev: &StoreEvent, entity: &String, timeline: &String, lo: i64, hi: i64, components: &Vec<String>) -> (r: bool)
    ensures
        r == ev.touches_range(entity@, timeline@, lo, hi, strings_view(components@)),
{
    if !(ev.entity == *entity) {
        return false;
    }
    let ghost cs = strings_view(components@);
    let mut any = false;
    let mut k: usize = 0;
    while k < components.len() && !any
        invariant
            k <= components@.len(),
            cs == strings_view(components@),
            any ==> exists|j: int| 0 <= j < cs.len() && #[trigger] cell_for(cells_view(ev.cells@), cs[j]).is_some(),
            !any ==> forall|j: int| 0 <= j < k ==> !(#[trigger] cell_for(cells_view(ev.cells@), cs[j]).is_some()),
        decreases components@.len() - k + (if any { 0int } else { 1int }),
    {
        assert(cs[k as int] == components@[k as int]@);
        if crate::cell::find_cell(&ev.cells, &components[k]).is_some() {
            assert(cell_for(cells_view(ev.cells@), cs[k as int]).is_some());
            any = true;
        }
        k += 1;
    }
    if !any {
        return false;
    }
    let ghost tp = entries_view(ev.times@);
    let mut i: usize = ev.times.len();
    assert(tp.subrange(0, i as int) =~= tp);
    while i > 0
        invariant
            i <= ev.times@.len(),
            tp == entries_view(ev.times@),
            ev.entity@ == entity@,
            cs == strings_view(components@),
            exists|j: int| 0 <= j < cs.len() && #[trigger] cell_for(cells_view(ev.cells@), cs[j]).is_some(),
            time_for(tp, timeline@) == time_for(tp.subrange(0, i as int), timeline@),
        decreases i,
    {
        assert(tp.subrange(0, i as int).drop_last() =~= tp.subrange(0, i - 1));
        assert(tp[i - 1] == (ev.times@[i - 1].timeline@, ev.times@[i - 1].time));
        if ev.times[i - 1].timeline == *timeline {
            assert(time_for(tp.subrange(0, i as int), timeline@) == Some(ev.times@[i - 1].time));
            return lo <= ev.times[i - 1].time && ev.times[i - 1].time <= hi;
        }
        i -= 1;
    }
    false
}

/// Statistics are a function of the store's state: two reads with no
/// mutation between them give identical values.
pub proof fn lemma_stats_idempotent(store: DataStore, first: DataStoreStats, second: DataStoreStats)
    requires
        first == store.stats_spec(),
        second == store.stats_spec(),
    ensures
        first == second,
{
}

} // verus!
