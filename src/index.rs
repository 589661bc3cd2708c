use vstd::prelude::*;
use crate::cell::{CellView, DataCell, cells_view, cell_for, find_cell};
pub use crate::cell::cells_size;

verus! {

/// One row of an index: its id, its time on the index's timeline, and its cells.
pub struct IndexedRow {
    pub row_id: u64,
    pub time: i64,
    pub cells: Vec<DataCell>,
}

pub ghost struct RowView {
    pub row_id: u64,
    pub time: i64,
    pub cells: Seq<CellView>,
}

impl View for IndexedRow {
    type V = RowView;

    open spec fn view(&self) -> RowView {
        RowView { row_id: self.row_id, time: self.time, cells: cells_view(self.cells@) }
    }
}

pub open spec fn rows_view(rows: Seq<IndexedRow>) -> Seq<RowView> {
    rows.map_values(|r: IndexedRow| r@)
}

/// Rows are ordered by time, then by row id.
pub open spec fn key_le(a: RowView, b: RowView) -> bool {
    a.time < b.time || (a.time == b.time && a.row_id <= b.row_id)
}

pub open spec fn is_sorted(rows: Seq<RowView>) -> bool {
    forall|i: int, j: int| 0 <= i < j < rows.len() ==> key_le(rows[i], rows[j])
}

/// A row that may answer a latest-at query for `component` at time `t`.
pub open spec fn is_candidate(r: RowView, t: i64, component: Seq<char>) -> bool {
    r.time <= t && cell_for(r.cells, component).is_some()
}

/// The answer of a latest-at query over `rows`: row id, time and bytes of the
/// last candidate row.
pub open spec fn latest_in(rows: Seq<RowView>, t: i64, component: Seq<char>) -> Option<
    (u64, i64, Seq<u8>),
>
    decreases rows.len(),
{
    if rows.len() == 0 {
        None
    } else if is_candidate(rows.last(), t, component) {
        Some((rows.last().row_id, rows.last().time, cell_for(rows.last().cells, component).unwrap()))
    } else {
        latest_in(rows.drop_last(), t, component)
    }
}

/// One row of a range query's answer: a cell, or none, per requested component.
pub ghost struct RangeRowView {
    pub row_id: u64,
    pub time: i64,
    pub cells: Seq<Option<Seq<u8>>>,
}

/// A row inside `[lo, hi]` that defines at least one of `components`.
pub open spec fn in_range(r: RowView, lo: i64, hi: i64, components: Seq<Seq<char>>) -> bool {
    lo <= r.time <= hi && exists|k: int|
        0 <= k < components.len() && #[trigger] cell_for(r.cells, components[k]).is_some()
}

pub open spec fn range_row(r: RowView, components: Seq<Seq<char>>) -> RangeRowView {
    RangeRowView {
        row_id: r.row_id,
        time: r.time,
        cells: components.map_values(|c: Seq<char>| cell_for(r.cells, c)),
    }
}

/// The answer of a range query over `rows`, in the rows' order.
pub open spec fn range_in(rows: Seq<RowView>, lo: i64, hi: i64, components: Seq<Seq<char>>) -> Seq<
    RangeRowView,
>
    decreases rows.len(),
{
    if rows.len() == 0 {
        seq![]
    } else {
        let prev = range_in(rows.drop_last(), lo, hi, components);
        if in_range(rows.last(), lo, hi, components) {
            prev.push(range_row(rows.last(), components))
        } else {
            prev
        }
    }
}

/// Over sorted rows, a latest-at answer comes from a candidate row that no
/// other candidate follows in (time, row id) order; there is no answer only
/// where there is no candidate.
pub proof fn lemma_latest_in_is_greatest(rows: Seq<RowView>, t: i64, component: Seq<char>)
    requires
        is_sorted(rows),
    ensures
        match latest_in(rows, t, component) {
            Some(hit) => exists|i: int|
                0 <= i < rows.len() && is_candidate(rows[i], t, component) && rows[i].row_id
                    == hit.0 && rows[i].time == hit.1 && cell_for(rows[i].cells, component)
                    == Some(hit.2) && forall|k: int|
                    0 <= k < rows.len() && is_candidate(rows[k], t, component) ==> key_le(
                        rows[k],
                        rows[i],
                    ),
            None => forall|k: int| 0 <= k < rows.len() ==> !is_candidate(rows[k], t, component),
        },
    decreases rows.len(),
{
    if rows.len() > 0 {
        let last = rows.len() - 1;
        if is_candidate(rows.last(), t, component) {
            assert(is_candidate(rows[last], t, component));
        } else {
            let init = rows.drop_last();
            lemma_latest_in_is_greatest(init, t, component);
            match latest_in(init, t, component) {
                Some(hit) => {
                    let i = choose|i: int|
                        0 <= i < init.len() && is_candidate(init[i], t, component)
                            && init[i].row_id == hit.0 && init[i].time == hit.1 && cell_for(
                            init[i].cells,
                            component,
                        ) == Some(hit.2) && forall|k: int|
                            0 <= k < init.len() && is_candidate(init[k], t, component)
                                ==> key_le(init[k], init[i]);
                    assert forall|k: int|
                        0 <= k < rows.len() && is_candidate(rows[k], t, component) implies key_le(
                        rows[k],
                        rows[i],
                    ) by {
                        assert(k != last);
                        assert(init[k] == rows[k]);
                    }
                    assert(rows[i] == init[i]);
                },
                None => {
                    assert forall|k: int| 0 <= k < rows.len() implies !is_candidate(
                        rows[k],
                        t,
                        component,
                    ) by {
                        if k < last {
                            assert(init[k] == rows[k]);
                        }
                    }
                },
            }
        }
    }
}

/// A row that is no candidate leaves a latest-at answer as it was.
pub proof fn lemma_latest_in_insert_other(
    rows: Seq<RowView>,
    pos: int,
    r: RowView,
    t: i64,
    component: Seq<char>,
)
    requires
        0 <= pos <= rows.len(),
        !is_candidate(r, t, component),
    ensures
        latest_in(rows.insert(pos, r), t, component) == latest_in(rows, t, component),
    decreases rows.len(),
{
    let ins = rows.insert(pos, r);
    if pos == rows.len() {
        assert(ins.drop_last() =~= rows);
    } else {
        assert(ins.last() == rows.last());
        assert(ins.drop_last() =~= rows.drop_last().insert(pos, r));
        lemma_latest_in_insert_other(rows.drop_last(), pos, r, t, component);
    }
}

/// A row outside the queried span, or without a queried component, leaves a
/// range answer as it was.
pub proof fn lemma_range_in_insert_other(
    rows: Seq<RowView>,
    pos: int,
    r: RowView,
    lo: i64,
    hi: i64,
    components: Seq<Seq<char>>,
)
    requires
        0 <= pos <= rows.len(),
        !in_range(r, lo, hi, components),
    ensures
        range_in(rows.insert(pos, r), lo, hi, components) == range_in(rows, lo, hi, components),
    decreases rows.len(),
{
    let ins = rows.insert(pos, r);
    if pos == rows.len() {
        assert(ins.drop_last() =~= rows);
    } else {
        assert(ins.last() == rows.last());
        assert(ins.drop_last() =~= rows.drop_last().insert(pos, r));
        lemma_range_in_insert_other(rows.drop_last(), pos, r, lo, hi, components);
    }
}

/// Where every row is in the span and has a queried component, the range
/// answer holds every row, in order.
pub proof fn lemma_range_in_all(rows: Seq<RowView>, lo: i64, hi: i64, components: Seq<Seq<char>>)
    requires
        forall|k: int| 0 <= k < rows.len() ==> #[trigger] in_range(rows[k], lo, hi, components),
    ensures
        range_in(rows, lo, hi, components) == rows.map_values(|r: RowView| range_row(r, components)),
    decreases rows.len(),
{
    if rows.len() > 0 {
        let init = rows.drop_last();
        assert forall|k: int| 0 <= k < init.len() implies #[trigger] in_range(init[k], lo, hi, components) by {
            assert(init[k] == rows[k]);
        }
        assert(in_range(rows[rows.len() - 1], lo, hi, components));
        lemma_range_in_all(init, lo, hi, components);
        assert(rows.map_values(|r: RowView| range_row(r, components)) =~= init.map_values(|r: RowView| range_row(r, components)).push(range_row(rows.last(), components)));
    } else {
        assert(rows.map_values(|r: RowView| range_row(r, components)) =~= Seq::<RangeRowView>::empty());
    }
}

/// The first row holds the only cell of some component among `rows`: removing
/// it would lose that component's most recent value.
pub open spec fn front_is_pinned(rows: Seq<RowView>) -> bool {
    rows.len() > 0 && exists|j: int|
        0 <= j < rows[0].cells.len() && !held_later(rows, #[trigger] rows[0].cells[j].component)
}

/// A row after the first has a cell for `component`.
pub open spec fn held_later(rows: Seq<RowView>, component: Seq<char>) -> bool {
    exists|k: int| 1 <= k < rows.len() && (#[trigger] cell_for(rows[k].cells, component)).is_some()
}

/// Where a later row is a candidate too, a row put in front changes nothing.
pub proof fn lemma_latest_in_front_shadowed(rows: Seq<RowView>, r: RowView, t: i64, component: Seq<char>)
    requires
        exists|k: int| 0 <= k < rows.len() && is_candidate(#[trigger] rows[k], t, component),
    ensures
        latest_in(rows.insert(0, r), t, component) == latest_in(rows, t, component),
    decreases rows.len(),
{
    let ins = rows.insert(0, r);
    assert(ins.last() == rows.last());
    if !is_candidate(rows.last(), t, component) {
        let k = choose|k: int| 0 <= k < rows.len() && is_candidate(#[trigger] rows[k], t, component);
        assert(k != rows.len() - 1);
        assert(rows.drop_last()[k] == rows[k]);
        assert(ins.drop_last() =~= rows.drop_last().insert(0, r));
        lemma_latest_in_front_shadowed(rows.drop_last(), r, t, component);
    }
}

/// Dropping a first row that is not pinned keeps the most recent value of
/// every component.
pub proof fn lemma_drop_unpinned_front(rows: Seq<RowView>, component: Seq<char>)
    requires
        rows.len() > 0,
        !front_is_pinned(rows),
    ensures
        latest_in(rows.subrange(1, rows.len() as int), i64::MAX, component) == latest_in(rows, i64::MAX, component),
{
    let rest = rows.subrange(1, rows.len() as int);
    assert(rows =~= rest.insert(0, rows[0]));
    crate::cell::lemma_cell_for_some(rows[0].cells, component);
    if cell_for(rows[0].cells, component).is_some() {
        let j = choose|j: int| 0 <= j < rows[0].cells.len() && rows[0].cells[j].component == component;
        assert(held_later(rows, rows[0].cells[j].component));
        let k = choose|k: int| 1 <= k < rows.len() && (#[trigger] cell_for(rows[k].cells, component)).is_some();
        assert(rest[k - 1] == rows[k]);
        assert(is_candidate(rest[k - 1], i64::MAX, component));
        lemma_latest_in_front_shadowed(rest, rows[0], i64::MAX, component);
    } else {
        lemma_latest_in_insert_other(rest, 0, rows[0], i64::MAX, component);
    }
}

/// Whether the first row is pinned.
pub fn front_is_pinned_exec(rows: &Vec<IndexedRow>) -> (r: bool)
    requires
        rows@.len() > 0,
    ensures
        r == front_is_pinned(rows_view(rows@)),
{
    let ghost v = rows_view(rows@);
    let cells = &rows[0].cells;
    let mut j: usize = 0;
    while j < cells.len()
        invariant
            v == rows_view(rows@),
            v.len() > 0,
            cells@ == rows@[0].cells@,
            j <= cells@.len(),
            forall|x: int| 0 <= x < j ==> held_later(v, #[trigger] v[0].cells[x].component),
        decreases cells@.len() - j,
    {
        let ghost c = v[0].cells[j as int].component;
        assert(c == cells@[j as int].component@);
        let mut k: usize = 1;
        let mut seen = false;
        while k < rows.len() && !seen
            invariant
                v == rows_view(rows@),
                cells@ == rows@[0].cells@,
                j < cells@.len(),
                c == cells@[j as int].component@,
                1 <= k <= rows@.len(),
                seen ==> held_later(v, c),
                !seen ==> forall|y: int| 1 <= y < k ==> (#[trigger] cell_for(v[y].cells, c)).is_none(),
            decreases rows@.len() - k + (if seen { 0int } else { 1int }),
        {
            if find_cell(&rows[k].cells, &cells[j].component).is_some() {
                assert(cell_for(v[k as int].cells, c).is_some());
                seen = true;
            }
            k += 1;
        }
        if !seen {
            assert(!held_later(v, c));
            return true;
        }
        j += 1;
    }
    false
}

/// Every row of a range answer has one cell slot per queried component.
pub proof fn lemma_range_in_widths(rows: Seq<RowView>, lo: i64, hi: i64, components: Seq<Seq<char>>)
    ensures
        forall|k: int| 0 <= k < range_in(rows, lo, hi, components).len()
            ==> (#[trigger] range_in(rows, lo, hi, components)[k]).cells.len() == components.len(),
    decreases rows.len(),
{
    if rows.len() > 0 {
        let prev = range_in(rows.drop_last(), lo, hi, components);
        lemma_range_in_widths(rows.drop_last(), lo, hi, components);
        let cur = range_in(rows, lo, hi, components);
        assert forall|k: int| 0 <= k < cur.len() implies (#[trigger] cur[k]).cells.len() == components.len() by {
            if k < prev.len() {
                assert(cur[k] == prev[k]);
            } else {
                assert(cur[k] == range_row(rows.last(), components));
            }
        }
    }
}

/// No two rows share a row id.
pub open spec fn ids_distinct(rows: Seq<RowView>) -> bool {
    forall|a: int, b: int| 0 <= a < b < rows.len() ==> rows[a].row_id != rows[b].row_id
}

/// Every row's id is among `issued`.
pub open spec fn ids_issued(rows: Seq<RowView>, issued: Seq<u64>) -> bool {
    forall|k: int| 0 <= k < rows.len() ==> issued.contains(#[trigger] rows[k].row_id)
}

pub proof fn lemma_ids_insert(rows: Seq<RowView>, pos: int, r: RowView, issued: Seq<u64>)
    requires
        0 <= pos <= rows.len(),
        ids_distinct(rows),
        ids_issued(rows, issued),
        issued.contains(r.row_id),
        forall|k: int| 0 <= k < rows.len() ==> rows[k].row_id != r.row_id,
    ensures
        ids_distinct(rows.insert(pos, r)),
        ids_issued(rows.insert(pos, r), issued),
{
    let ins = rows.insert(pos, r);
    assert forall|a: int, b: int| 0 <= a < b < ins.len() implies ins[a].row_id != ins[b].row_id by {
        if a < pos {
            if b < pos { } else if b == pos { } else { assert(ins[b] == rows[b - 1]); }
        } else if a == pos {
            assert(ins[b] == rows[b - 1]);
        } else {
            assert(ins[a] == rows[a - 1]);
            assert(ins[b] == rows[b - 1]);
        }
    }
    assert forall|k: int| 0 <= k < ins.len() implies issued.contains(#[trigger] ins[k].row_id) by {
        if k < pos {
            assert(ins[k] == rows[k]);
        } else if k > pos {
            assert(ins[k] == rows[k - 1]);
        }
    }
}

pub proof fn lemma_ids_suffix(rows: Seq<RowView>, n: int, issued: Seq<u64>)
    requires
        0 <= n <= rows.len(),
        ids_distinct(rows),
        ids_issued(rows, issued),
    ensures
        ids_distinct(rows.subrange(n, rows.len() as int)),
        ids_issued(rows.subrange(n, rows.len() as int), issued),
{
    let sub = rows.subrange(n, rows.len() as int);
    assert forall|a: int, b: int| 0 <= a < b < sub.len() implies sub[a].row_id != sub[b].row_id by {
        assert(sub[a] == rows[a + n]);
        assert(sub[b] == rows[b + n]);
    }
    assert forall|k: int| 0 <= k < sub.len() implies issued.contains(#[trigger] sub[k].row_id) by {
        assert(sub[k] == rows[k + n]);
    }
}

pub proof fn lemma_ids_issued_grow(rows: Seq<RowView>, issued: Seq<u64>, id: u64)
    requires
        ids_issued(rows, issued),
    ensures
        ids_issued(rows, issued.push(id)),
{
    assert forall|k: int| 0 <= k < rows.len() implies issued.push(id).contains(#[trigger] rows[k].row_id) by {
        let x = choose|x: int| 0 <= x < issued.len() && issued[x] == rows[k].row_id;
        assert(issued.push(id)[x] == rows[k].row_id);
    }
}

fn key_le_exec(a: &IndexedRow, b: &IndexedRow) -> (r: bool)
    ensures
        r == key_le(a@, b@),
{
    a.time < b.time || (a.time == b.time && a.row_id <= b.row_id)
}

/// Inserts `row` after every row that does not follow it in (time, row id)
/// order, and returns where it went.
pub fn insert_sorted(rows: &mut Vec<IndexedRow>, row: IndexedRow) -> (pos: usize)
    requires
        is_sorted(rows_view(old(rows)@)),
    ensures
        pos <= old(rows)@.len(),
        rows_view(final(rows)@) == rows_view(old(rows)@).insert(pos as int, row@),
        is_sorted(rows_view(final(rows)@)),
{
    let ghost old_rows = rows_view(rows@);
    let ghost new_row = row@;
    let mut pos: usize = rows.len();
    let mut found = false;
    while pos > 0 && !found
        invariant
            pos <= rows@.len(),
            rows_view(rows@) == old_rows,
            is_sorted(old_rows),
            new_row == row@,
            found ==> pos > 0 && key_le(old_rows[pos - 1], new_row),
            forall|k: int| pos <= k < rows@.len() ==> !key_le(old_rows[k], new_row),
        decreases pos + (if found { 0int } else { 1int }),
    {
        if key_le_exec(&rows[pos - 1], &row) {
            found = true;
        } else {
            pos -= 1;
        }
    }
    assert forall|k: int| 0 <= k < pos implies key_le(old_rows[k], new_row) by {
        assert(key_le(old_rows[k], old_rows[pos - 1]));
    }
    rows.insert(pos, row);
    assert(rows_view(rows@) =~= old_rows.insert(pos as int, new_row));
    pos
}

/// The latest-at answer over an index's rows.
pub fn latest_in_rows(rows: &Vec<IndexedRow>, t: i64, component: &String) -> (r: Option<
    (u64, i64, Vec<u8>),
>)
    ensures
        match r {
            Some(hit) => latest_in(rows_view(rows@), t, component@) == Some(
                (hit.0, hit.1, hit.2@),
            ),
            None => latest_in(rows_view(rows@), t, component@).is_none(),
        },
{
    let ghost all = rows_view(rows@);
    let mut i: usize = rows.len();
    assert(all.subrange(0, i as int) =~= all);
    while i > 0
        invariant
            i <= rows@.len(),
            all == rows_view(rows@),
            latest_in(all, t, component@) == latest_in(all.subrange(0, i as int), t, component@),
        decreases i,
    {
        let ghost pre = all.subrange(0, i as int);
        assert(pre.drop_last() =~= all.subrange(0, i - 1));
        if rows[i - 1].time <= t {
            match find_cell(&rows[i - 1].cells, component) {
                Some(b) => {
                    return Some((rows[i - 1].row_id, rows[i - 1].time, b));
                },
                None => {},
            }
        }
        i -= 1;
    }
    None
}

pub struct RangeRow {
    pub row_id: u64,
    pub time: i64,
    pub cells: Vec<Option<Vec<u8>>>,
}

pub open spec fn opt_bytes_view(o: Option<Vec<u8>>) -> Option<Seq<u8>> {
    match o {
        Some(b) => Some(b@),
        None => None,
    }
}

impl View for RangeRow {
    type V = RangeRowView;

    open spec fn view(&self) -> RangeRowView {
        RangeRowView {
            row_id: self.row_id,
            time: self.time,
            cells: self.cells@.map_values(|o: Option<Vec<u8>>| opt_bytes_view(o)),
        }
    }
}

pub open spec fn strings_view(v: Seq<String>) -> Seq<Seq<char>> {
    v.map_values(|s: String| s@)
}

/// The cells of `row` for `components`, and whether any of them is present.
fn select_cells(row: &IndexedRow, components: &Vec<String>) -> (r: (Vec<Option<Vec<u8>>>, bool))
    ensures
        r.0@.map_values(|o: Option<Vec<u8>>| opt_bytes_view(o)) == strings_view(
            components@,
        ).map_values(|c: Seq<char>| cell_for(row@.cells, c)),
        r.1 == exists|k: int|
            0 <= k < components@.len() && #[trigger] cell_for(
                row@.cells,
                strings_view(components@)[k],
            ).is_some(),
{
    let ghost comps = strings_view(components@);
    let mut out: Vec<Option<Vec<u8>>> = Vec::new();
    let mut any = false;
    let mut k: usize = 0;
    while k < components.len()
        invariant
            k <= components@.len(),
            comps == strings_view(components@),
            out@.len() == k,
            forall|j: int| 0 <= j < k ==> opt_bytes_view(#[trigger] out@[j]) == cell_for(row@.cells, comps[j]),
            any == exists|j: int| 0 <= j < k && #[trigger] cell_for(row@.cells, comps[j]).is_some(),
        decreases components@.len() - k,
    {
        let c = find_cell(&row.cells, &components[k]);
        assert(components@[k as int]@ == comps[k as int]);
        assert(opt_bytes_view(c) == cell_for(row@.cells, comps[k as int]));
        if c.is_some() {
            any = true;
        }
        out.push(c);
        proof {
            let kk = k as int;
            if any {
                if cell_for(row@.cells, comps[kk]).is_some() {
                    assert(0 <= kk < kk + 1 && cell_for(row@.cells, comps[kk]).is_some());
                }
            } else {
                assert forall|j: int| 0 <= j < kk + 1 implies !(#[trigger] cell_for(row@.cells, comps[j]).is_some()) by {
                    if j < kk {
                    }
                }
            }
        }
        k += 1;
    }
    assert(out@.map_values(|o: Option<Vec<u8>>| opt_bytes_view(o)) =~= comps.map_values(
        |c: Seq<char>| cell_for(row@.cells, c),
    ));
    (out, any)
}

pub open spec fn range_rows_view(v: Seq<RangeRow>) -> Seq<RangeRowView> {
    v.map_values(|r: RangeRow| r@)
}

/// The range answer over an index's rows.
pub fn range_in_rows(rows: &Vec<IndexedRow>, lo: i64, hi: i64, components: &Vec<String>) -> (r: Vec<RangeRow>)
    ensures
        range_rows_view(r@) == range_in(rows_view(rows@), lo, hi, strings_view(components@)),
{
    let ghost all = rows_view(rows@);
    let ghost comps = strings_view(components@);
    let mut out: Vec<RangeRow> = Vec::new();
    let mut i: usize = 0;
    while i < rows.len()
        invariant
            i <= rows@.len(),
            all == rows_view(rows@),
            comps == strings_view(components@),
            range_rows_view(out@) == range_in(all.subrange(0, i as int), lo, hi, comps),
        decreases rows@.len() - i,
    {
        let ghost pre = all.subrange(0, i + 1);
        assert(pre.drop_last() =~= all.subrange(0, i as int));
        if lo <= rows[i].time && rows[i].time <= hi {
            let (cells, any) = select_cells(&rows[i], components);
            if any {
                let ghost before = out@;
                out.push(RangeRow { row_id: rows[i].row_id, time: rows[i].time, cells });
                assert(range_rows_view(out@) =~= range_rows_view(before).push(range_row(all[i as int], comps)));
            }
        }
        i += 1;
    }
    assert(all.subrange(0, i as int) =~= all);
    out
}

} // verus!
