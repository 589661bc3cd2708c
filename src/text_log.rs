use vstd::prelude::*;
use crate::index::{RangeRowView, opt_bytes_view, range_rows_view, strings_view};
use crate::context::StoreContext;
use crate::store::DataStore;

verus! {

/// One line of a text log.
pub struct Entry {
    pub row_id: u64,
    pub entity_path: String,
    /// `None` for timeless data.
    pub time: Option<i64>,
    pub color: Option<Vec<u8>>,
    pub body: Vec<u8>,
    pub level: Option<Vec<u8>>,
}

pub ghost struct EntryView {
    pub row_id: u64,
    pub entity_path: Seq<char>,
    pub time: Option<i64>,
    pub color: Option<Seq<u8>>,
    pub body: Seq<u8>,
    pub level: Option<Seq<u8>>,
}

impl View for Entry {
    type V = EntryView;

    open spec fn view(&self) -> EntryView {
        EntryView {
            row_id: self.row_id,
            entity_path: self.entity_path@,
            time: self.time,
            color: opt_bytes_view(self.color),
            body: self.body@,
            level: opt_bytes_view(self.level),
        }
    }
}

pub open spec fn log_entries_view(v: Seq<Entry>) -> Seq<EntryView> {
    v.map_values(|e: Entry| e@)
}

/// The components that a text log reads: the body, which is required, then
/// the level and the color.
pub open spec fn text_log_components() -> Seq<Seq<char>> {
    seq!["rerun.components.Text"@, "rerun.components.TextLogLevel"@, "rerun.components.Color"@]
}

/// The entries that range answer `rows` for `entity` yields: one per row
/// that has a body.
pub open spec fn entries_of_rows(rows: Seq<RangeRowView>, entity: Seq<char>) -> Seq<EntryView>
    decreases rows.len(),
{
    if rows.len() == 0 {
        seq![]
    } else {
        let prev = entries_of_rows(rows.drop_last(), entity);
        let r = rows.last();
        match r.cells[0] {
            Some(body) => prev.push(EntryView {
                row_id: r.row_id,
                entity_path: entity,
                time: Some(r.time),
                color: r.cells[2],
                body,
                level: r.cells[1],
            }),
            None => prev,
        }
    }
}

/// The entries of every row of each of `entities` on `timeline`, entity by
/// entity, each in (time, row id) order.
pub open spec fn text_log_spec(store: DataStore, timeline: Seq<char>, entities: Seq<Seq<char>>) -> Seq<EntryView>
    decreases entities.len(),
{
    if entities.len() == 0 {
        seq![]
    } else {
        text_log_spec(store, timeline, entities.drop_last()) + entries_of_rows(
            store.range_view(entities.last(), timeline, i64::MIN, i64::MAX, text_log_components()),
            entities.last(),
        )
    }
}

/// A text scene, with everything needed to render it.
pub struct TextLogSystem {
    pub entries: Vec<Entry>,
}

fn clone_opt_bytes(o: &Option<Vec<u8>>) -> (r: Option<Vec<u8>>)
    ensures
        opt_bytes_view(r) == opt_bytes_view(*o),
{
    match o {
        Some(b) => Some(b.clone()),
        None => None,
    }
}

fn components() -> (r: Vec<String>)
    ensures
        strings_view(r@) == text_log_components(),
{
    let mut v: Vec<String> = Vec::new();
    v.push(String::from_str("rerun.components.Text"));
    v.push(String::from_str("rerun.components.TextLogLevel"));
    v.push(String::from_str("rerun.components.Color"));
    assert(strings_view(v@) =~= text_log_components());
    v
}

impl TextLogSystem {
    pub fn new() -> (r: TextLogSystem)
        ensures
            r.entries@.len() == 0,
    {
        TextLogSystem { entries: Vec::new() }
    }

    pub fn identifier() -> (r: &'static str)
        ensures
            r@ == "TextLog"@,
    {
        "TextLog"
    }

    /// The component that every text log row must have.
    pub fn required_components() -> (r: Vec<String>)
        ensures
            r@.len() == 1,
            r@[0]@ == "rerun.components.Text"@,
    {
        let mut v: Vec<String> = Vec::new();
        v.push(String::from_str("rerun.components.Text"));
        v
    }

    pub fn indicator_components() -> (r: Vec<String>)
        ensures
            r@.len() == 1,
            r@[0]@ == "rerun.components.TextLogIndicator"@,
    {
        let mut v: Vec<String> = Vec::new();
        v.push(String::from_str("rerun.components.TextLogIndicator"));
        v
    }

    /// Appends, for each of `entities` in turn, an entry for every row of
    /// that entity on `timeline`, over all times, that has a body. The rows
    /// come through the context's cache, which answers as the store does.
    pub fn execute(&mut self, ctx: &mut StoreContext, timeline: &String, entities: &Vec<String>)
        requires
            old(ctx).wf(),
        ensures
            final(ctx).wf(),
            final(ctx).store == old(ctx).store,
            final(ctx).cache.registry == old(ctx).cache.registry,
            log_entries_view(final(self).entries@) == log_entries_view(old(self).entries@)
                + text_log_spec(old(ctx).store, timeline@, strings_view(entities@)),
    {
        let ghost store = ctx.store;
        let comps = components();
        let ghost start = log_entries_view(self.entries@);
        let mut e: usize = 0;
        while e < entities.len()
            invariant
                ctx.wf(),
                ctx.store == store,
                ctx.cache.registry == old(ctx).cache.registry,
                store == old(ctx).store,
                e <= entities@.len(),
                strings_view(comps@) == text_log_components(),
                log_entries_view(self.entries@) == start + text_log_spec(store, timeline@, strings_view(entities@.subrange(0, e as int))),
            decreases entities@.len() - e,
        {
            let entity = &entities[e];
            let rows = ctx.range(entity, timeline, i64::MIN, i64::MAX, &comps);
            let ghost rv = range_rows_view(rows@);
            proof {
                crate::index::lemma_range_in_widths(store.rows(entity@, Some(timeline@)), i64::MIN, i64::MAX, text_log_components());
                assert forall|k: int| 0 <= k < rows@.len() implies (#[trigger] rows@[k]).cells@.len() == 3 by {
                    assert(rv[k] == rows@[k]@);
                }
            }
            let ghost base = log_entries_view(self.entries@);
            let mut i: usize = 0;
            while i < rows.len()
                invariant
                    i <= rows@.len(),
                    rv == range_rows_view(rows@),
                    forall|k: int| 0 <= k < rows@.len() ==> (#[trigger] rows@[k]).cells@.len() == 3,
                    log_entries_view(self.entries@) == base + entries_of_rows(rv.subrange(0, i as int), entity@),
                decreases rows@.len() - i,
            {
                let row = &rows[i];
                assert(rv.subrange(0, i + 1).drop_last() =~= rv.subrange(0, i as int));
                assert(rv[i as int].cells[0] == opt_bytes_view(row.cells@[0]));
                match &row.cells[0] {
                    Some(body) => {
                        let ghost before = log_entries_view(self.entries@);
                        self.entries.push(Entry {
                            row_id: row.row_id,
                            entity_path: entity.clone(),
                            time: Some(row.time),
                            color: clone_opt_bytes(&row.cells[2]),
                            body: body.clone(),
                            level: clone_opt_bytes(&row.cells[1]),
                        });
                        assert(log_entries_view(self.entries@) =~= before.push(self.entries@.last()@));
                        assert(rv[i as int].cells[1] == opt_bytes_view(row.cells@[1]));
                        assert(rv[i as int].cells[2] == opt_bytes_view(row.cells@[2]));
                    },
                    None => {},
                }
                i += 1;
            }
            proof {
                assert(rv.subrange(0, rows@.len() as int) =~= rv);
                let es = strings_view(entities@.subrange(0, e + 1));
                assert(es.drop_last() =~= strings_view(entities@.subrange(0, e as int)));
                assert(es.last() == entity@);
            }
            e += 1;
        }
        assert(entities@.subrange(0, e as int) =~= entities@);
    }
}

} // verus!
