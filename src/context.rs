use vstd::prelude::*;
use crate::cache::{CachedComponent, QueryCache, entry_matches, range_entry_matches, range_key_is, range_touched, resolve, key_is, saturating_inc};
use crate::index::{RangeRow, range_rows_view, strings_view};
use crate::cell::{DataCell, cells_size, cells_view};
use crate::codec::CodecRegistry;
use crate::store::{
    DataStore, DataStoreRowStats, DataStoreStats, GcPolicy, GcReport, StoreError, StoreEvent, TimeEntry, entries_view,
    evicted_oldest_first, insertion_effect, no_event_touches, no_event_touches_range,
};

verus! {

/// A store together with the cache that its events keep coherent.
pub struct StoreContext {
    pub store: DataStore,
    pub cache: QueryCache,
}

/// The cache after delivering `ev` holds exactly the entries of the cache
/// before that `ev` does not touch.
pub open spec fn keeps_untouched(before: QueryCache, after: QueryCache, ev: StoreEvent) -> bool {
    &&& forall|j: int| 0 <= j < after.entries@.len() ==> before.entries@.contains(#[trigger] after.entries@[j])
        && !ev.touches_latest(after.entries@[j].key.entity@, after.entries@[j].key.timeline@, after.entries@[j].key.time, after.entries@[j].key.component@)
    &&& forall|i: int| 0 <= i < before.entries@.len()
        && !ev.touches_latest(before.entries@[i].key.entity@, before.entries@[i].key.timeline@, before.entries@[i].key.time, before.entries@[i].key.component@)
        ==> after.entries@.contains(#[trigger] before.entries@[i])
    &&& forall|j: int| 0 <= j < after.range_entries@.len() ==> before.range_entries@.contains(#[trigger] after.range_entries@[j])
        && !range_touched(ev, after.range_entries@[j].key)
    &&& forall|i: int| 0 <= i < before.range_entries@.len() && !range_touched(ev, before.range_entries@[i].key)
        ==> after.range_entries@.contains(#[trigger] before.range_entries@[i])
}

/// The cache after delivering `events` holds exactly the entries of the cache
/// before that none of `events` touches.
pub open spec fn keeps_untouched_by_all(before: QueryCache, after: QueryCache, events: Seq<StoreEvent>) -> bool {
    &&& forall|j: int| 0 <= j < after.entries@.len() ==> before.entries@.contains(#[trigger] after.entries@[j])
        && no_event_touches(events, after.entries@[j].key.entity@, after.entries@[j].key.timeline@, after.entries@[j].key.time, after.entries@[j].key.component@)
    &&& forall|i: int| 0 <= i < before.entries@.len()
        && no_event_touches(events, before.entries@[i].key.entity@, before.entries@[i].key.timeline@, before.entries@[i].key.time, before.entries@[i].key.component@)
        ==> after.entries@.contains(#[trigger] before.entries@[i])
    &&& forall|j: int| 0 <= j < after.range_entries@.len() ==> before.range_entries@.contains(#[trigger] after.range_entries@[j])
        && no_event_touches_range(events, after.range_entries@[j].key.entity@, after.range_entries@[j].key.timeline@,
            after.range_entries@[j].key.lo, after.range_entries@[j].key.hi, strings_view(after.range_entries@[j].key.components@))
    &&& forall|i: int| 0 <= i < before.range_entries@.len()
        && no_event_touches_range(events, before.range_entries@[i].key.entity@, before.range_entries@[i].key.timeline@,
            before.range_entries@[i].key.lo, before.range_entries@[i].key.hi, strings_view(before.range_entries@[i].key.components@))
        ==> after.range_entries@.contains(#[trigger] before.range_entries@[i])
}

impl StoreContext {
    pub open spec fn wf(&self) -> bool {
        self.store.wf() && self.cache.coherent(self.store)
    }

    pub fn new(registry: CodecRegistry) -> (r: StoreContext)
        ensures
            r.wf(),
            r.cache.registry == registry,
            r.cache.entries@.len() == 0,
            r.cache.range_entries@.len() == 0,
            r.cache.hits == 0,
            r.cache.misses == 0,
            r.store.stats_spec().total == (DataStoreRowStats { num_rows: 0, num_bytes: 0 }),
            forall|e: Seq<char>, tl: Option<Seq<char>>| #[trigger] r.store.rows(e, tl).len() == 0,
    {
        StoreContext { store: DataStore::new(), cache: QueryCache::new(registry) }
    }

    /// Inserts a row into the store and delivers its event to the cache.
    pub fn insert(&mut self, entity: &String, row_id: u64, timepoint: &Vec<TimeEntry>, cells: &Vec<DataCell>) -> (r: Result<StoreEvent, StoreError>)
        requires
            old(self).wf(),
            old(self).store.timeless_stats.num_rows + old(self).store.temporal_stats.num_rows + timepoint@.len() + 1 <= u64::MAX,
            old(self).store.timeless_stats.num_bytes + old(self).store.temporal_stats.num_bytes
                + (timepoint@.len() + 1) * cells_size(cells_view(cells@)) <= u64::MAX,
        ensures
            final(self).wf(),
            final(self).cache.registry == old(self).cache.registry,
            final(self).cache.hits == old(self).cache.hits,
            final(self).cache.misses == old(self).cache.misses,
            old(self).store.used_row_ids@.contains(row_id) <==> r is Err,
            r is Err ==> r == Err::<StoreEvent, StoreError>(StoreError::DuplicateRowId(row_id)) && *final(self) == *old(self),
            r is Ok ==> keeps_untouched(old(self).cache, final(self).cache, r->Ok_0),
            r is Ok ==> forall|e: Seq<char>, tl: Option<Seq<char>>| #[trigger] insertion_effect(
                old(self).store.rows(e, tl), final(self).store.rows(e, tl), e, tl, entity@, row_id,
                entries_view(timepoint@), cells_view(cells@)),
    {
        let ghost before = self.store;
        let r = self.store.insert(entity, row_id, timepoint, cells);
        match &r {
            Ok(ev) => {
                let ghost cache_before = self.cache;
                self.cache.on_store_event(ev);
                proof {
                    assert forall|j: int| 0 <= j < self.cache.entries@.len() implies #[trigger] entry_matches(self.cache.entries@[j], self.cache.registry, self.store) by {
                        let en = self.cache.entries@[j];
                        let i = choose|i: int| 0 <= i < cache_before.entries@.len() && cache_before.entries@[i] == en;
                        assert(entry_matches(cache_before.entries@[i], cache_before.registry, before));
                        assert(self.store.latest_at_view(en.key.entity@, en.key.timeline@, en.key.time, en.key.component@)
                            == before.latest_at_view(en.key.entity@, en.key.timeline@, en.key.time, en.key.component@));
                    }
                    assert forall|j: int| 0 <= j < self.cache.range_entries@.len() implies #[trigger] range_entry_matches(self.cache.range_entries@[j], self.store) by {
                        let en = self.cache.range_entries@[j];
                        let i = choose|i: int| 0 <= i < cache_before.range_entries@.len() && cache_before.range_entries@[i] == en;
                        assert(range_entry_matches(cache_before.range_entries@[i], before));
                        assert(!range_touched(*ev, en.key));
                    }
                }
            },
            Err(_) => {},
        }
        r
    }

    /// The decoded latest-at answer, through the cache: it equals what the
    /// store answers now, decoded with the registry's codec.
    pub fn latest_at(&mut self, entity: &String, timeline: &String, time: i64, component: &String) -> (r: CachedComponent)
        requires
            old(self).wf(),
        ensures
            final(self).wf(),
            final(self).store == old(self).store,
            final(self).cache.registry == old(self).cache.registry,
            r@ == resolve(final(self).cache.registry.codec_for(component@), final(self).store.latest_at_view(entity@, timeline@, time, component@)),
            (exists|i: int| 0 <= i < old(self).cache.entries@.len() && key_is(#[trigger] old(self).cache.entries@[i].key, entity@, timeline@, time, component@))
                ==> final(self).cache.hits == saturating_inc(old(self).cache.hits) && final(self).cache.misses == old(self).cache.misses,
            !(exists|i: int| 0 <= i < old(self).cache.entries@.len() && key_is(#[trigger] old(self).cache.entries@[i].key, entity@, timeline@, time, component@))
                ==> final(self).cache.misses == saturating_inc(old(self).cache.misses) && final(self).cache.hits == old(self).cache.hits,
    {
        self.cache.get_or_compute_latest_at(&self.store, entity, timeline, time, component)
    }

    /// The range answer, through the cache: it equals what the store answers
    /// now.
    pub fn range(&mut self, entity: &String, timeline: &String, lo: i64, hi: i64, components: &Vec<String>) -> (r: Vec<RangeRow>)
        requires
            old(self).wf(),
        ensures
            final(self).wf(),
            final(self).store == old(self).store,
            final(self).cache.registry == old(self).cache.registry,
            range_rows_view(r@) == final(self).store.range_view(entity@, timeline@, lo, hi, strings_view(components@)),
            (exists|i: int| 0 <= i < old(self).cache.range_entries@.len() && range_key_is(#[trigger] old(self).cache.range_entries@[i].key, entity@, timeline@, lo, hi, strings_view(components@)))
                ==> final(self).cache.hits == saturating_inc(old(self).cache.hits) && final(self).cache.misses == old(self).cache.misses,
            !(exists|i: int| 0 <= i < old(self).cache.range_entries@.len() && range_key_is(#[trigger] old(self).cache.range_entries@[i].key, entity@, timeline@, lo, hi, strings_view(components@)))
                ==> final(self).cache.misses == saturating_inc(old(self).cache.misses) && final(self).cache.hits == old(self).cache.hits,
    {
        self.cache.get_or_compute_range(&self.store, entity, timeline, lo, hi, components)
    }

    /// Collects garbage in the store and delivers each eviction event to the
    /// cache, in eviction order.
    pub fn garbage_collect(&mut self, policy: &GcPolicy) -> (r: GcReport)
        requires
            old(self).wf(),
        ensures
            final(self).wf(),
            final(self).cache.registry == old(self).cache.registry,
            keeps_untouched_by_all(old(self).cache, final(self).cache, r.events@),
            forall|e: Seq<char>, tl: Seq<char>| #[trigger] evicted_oldest_first(old(self).store.rows(e, Some(tl)), final(self).store.rows(e, Some(tl)), *policy),
            forall|e: Seq<char>| #[trigger] final(self).store.rows(e, None) == old(self).store.rows(e, None),
            forall|e: Seq<char>, tl: Seq<char>, c: Seq<char>| #[trigger] crate::index::latest_in(final(self).store.rows(e, Some(tl)), i64::MAX, c)
                == crate::index::latest_in(old(self).store.rows(e, Some(tl)), i64::MAX, c),
    {
        let ghost before = self.store;
        let ghost cache_before = self.cache;
        let report = self.store.garbage_collect(policy);
        let ghost evs = report.events@;
        let ghost after = self.store;
        let mut k: usize = 0;
        while k < report.events.len()
            invariant
                k <= evs.len(),
                evs == report.events@,
                self.store == after,
                self.store.wf(),
                self.cache.registry == cache_before.registry,
                forall|j: int| 0 <= j < self.cache.entries@.len() ==> cache_before.entries@.contains(#[trigger] self.cache.entries@[j])
                    && no_event_touches(evs.subrange(0, k as int), self.cache.entries@[j].key.entity@, self.cache.entries@[j].key.timeline@,
                        self.cache.entries@[j].key.time, self.cache.entries@[j].key.component@),
                forall|j: int| 0 <= j < self.cache.range_entries@.len() ==> cache_before.range_entries@.contains(#[trigger] self.cache.range_entries@[j])
                    && no_event_touches_range(evs.subrange(0, k as int), self.cache.range_entries@[j].key.entity@, self.cache.range_entries@[j].key.timeline@,
                        self.cache.range_entries@[j].key.lo, self.cache.range_entries@[j].key.hi, strings_view(self.cache.range_entries@[j].key.components@)),
                forall|i: int| 0 <= i < cache_before.entries@.len()
                    && no_event_touches(evs.subrange(0, k as int), cache_before.entries@[i].key.entity@, cache_before.entries@[i].key.timeline@,
                        cache_before.entries@[i].key.time, cache_before.entries@[i].key.component@)
                    ==> self.cache.entries@.contains(#[trigger] cache_before.entries@[i]),
                forall|i: int| 0 <= i < cache_before.range_entries@.len()
                    && no_event_touches_range(evs.subrange(0, k as int), cache_before.range_entries@[i].key.entity@, cache_before.range_entries@[i].key.timeline@,
                        cache_before.range_entries@[i].key.lo, cache_before.range_entries@[i].key.hi, strings_view(cache_before.range_entries@[i].key.components@))
                    ==> self.cache.range_entries@.contains(#[trigger] cache_before.range_entries@[i]),
            decreases evs.len() - k,
        {
            let ghost mid = self.cache;
            self.cache.on_store_event(&report.events[k]);
            proof {
                assert forall|i: int| 0 <= i < cache_before.entries@.len()
                    && no_event_touches(evs.subrange(0, k + 1), cache_before.entries@[i].key.entity@, cache_before.entries@[i].key.timeline@,
                        cache_before.entries@[i].key.time, cache_before.entries@[i].key.component@)
                    implies self.cache.entries@.contains(#[trigger] cache_before.entries@[i]) by {
                    let en = cache_before.entries@[i];
                    let sub = evs.subrange(0, k + 1);
                    assert(no_event_touches(evs.subrange(0, k as int), en.key.entity@, en.key.timeline@, en.key.time, en.key.component@)) by {
                        assert forall|m: int| 0 <= m < k implies !(#[trigger] evs.subrange(0, k as int)[m].touches_latest(en.key.entity@, en.key.timeline@, en.key.time, en.key.component@)) by {
                            assert(evs.subrange(0, k as int)[m] == sub[m]);
                        }
                    }
                    assert(!sub[k as int].touches_latest(en.key.entity@, en.key.timeline@, en.key.time, en.key.component@));
                    assert(mid.entries@.contains(en));
                    let x = choose|x: int| 0 <= x < mid.entries@.len() && mid.entries@[x] == en;
                    assert(self.cache.entries@.contains(mid.entries@[x]));
                }
                assert forall|i: int| 0 <= i < cache_before.range_entries@.len()
                    && no_event_touches_range(evs.subrange(0, k + 1), cache_before.range_entries@[i].key.entity@, cache_before.range_entries@[i].key.timeline@,
                        cache_before.range_entries@[i].key.lo, cache_before.range_entries@[i].key.hi, strings_view(cache_before.range_entries@[i].key.components@))
                    implies self.cache.range_entries@.contains(#[trigger] cache_before.range_entries@[i]) by {
                    let en = cache_before.range_entries@[i];
                    let sub = evs.subrange(0, k + 1);
                    let cs = strings_view(en.key.components@);
                    assert(no_event_touches_range(evs.subrange(0, k as int), en.key.entity@, en.key.timeline@, en.key.lo, en.key.hi, cs)) by {
                        assert forall|m: int| 0 <= m < k implies !(#[trigger] evs.subrange(0, k as int)[m].touches_range(en.key.entity@, en.key.timeline@, en.key.lo, en.key.hi, cs)) by {
                            assert(evs.subrange(0, k as int)[m] == sub[m]);
                        }
                    }
                    assert(!sub[k as int].touches_range(en.key.entity@, en.key.timeline@, en.key.lo, en.key.hi, cs));
                    assert(mid.range_entries@.contains(en));
                    let x = choose|x: int| 0 <= x < mid.range_entries@.len() && mid.range_entries@[x] == en;
                    assert(self.cache.range_entries@.contains(mid.range_entries@[x]));
                }
                assert forall|j: int| 0 <= j < self.cache.entries@.len() implies cache_before.entries@.contains(#[trigger] self.cache.entries@[j])
                    && no_event_touches(evs.subrange(0, k + 1), self.cache.entries@[j].key.entity@, self.cache.entries@[j].key.timeline@,
                        self.cache.entries@[j].key.time, self.cache.entries@[j].key.component@) by {
                    let en = self.cache.entries@[j];
                    let i = choose|i: int| 0 <= i < mid.entries@.len() && mid.entries@[i] == en;
                    assert(mid.entries@.contains(mid.entries@[i]));
                    let sub = evs.subrange(0, k + 1);
                    assert forall|m: int| 0 <= m < sub.len() implies !(#[trigger] sub[m].touches_latest(en.key.entity@, en.key.timeline@, en.key.time, en.key.component@)) by {
                        if m < k {
                            assert(sub[m] == evs.subrange(0, k as int)[m]);
                        }
                    }
                }
                assert forall|j: int| 0 <= j < self.cache.range_entries@.len() implies cache_before.range_entries@.contains(#[trigger] self.cache.range_entries@[j])
                    && no_event_touches_range(evs.subrange(0, k + 1), self.cache.range_entries@[j].key.entity@, self.cache.range_entries@[j].key.timeline@,
                        self.cache.range_entries@[j].key.lo, self.cache.range_entries@[j].key.hi, strings_view(self.cache.range_entries@[j].key.components@)) by {
                    let en = self.cache.range_entries@[j];
                    let i = choose|i: int| 0 <= i < mid.range_entries@.len() && mid.range_entries@[i] == en;
                    assert(mid.range_entries@.contains(mid.range_entries@[i]));
                    let sub = evs.subrange(0, k + 1);
                    assert forall|m: int| 0 <= m < sub.len() implies !(#[trigger] sub[m].touches_range(en.key.entity@, en.key.timeline@, en.key.lo, en.key.hi, strings_view(en.key.components@))) by {
                        if m < k {
                            assert(sub[m] == evs.subrange(0, k as int)[m]);
                        } else {
                            assert(!range_touched(evs[k as int], en.key));
                        }
                    }
                }
            }
            k += 1;
        }
        proof {
            assert(evs.subrange(0, evs.len() as int) =~= evs);
            assert(keeps_untouched_by_all(cache_before, self.cache, evs));
            assert forall|j: int| 0 <= j < self.cache.entries@.len() implies #[trigger] entry_matches(self.cache.entries@[j], self.cache.registry, self.store) by {
                let en = self.cache.entries@[j];
                let i = choose|i: int| 0 <= i < cache_before.entries@.len() && cache_before.entries@[i] == en;
                assert(entry_matches(cache_before.entries@[i], cache_before.registry, before));
                assert(no_event_touches(evs, en.key.entity@, en.key.timeline@, en.key.time, en.key.component@));
                assert(after.latest_at_view(en.key.entity@, en.key.timeline@, en.key.time, en.key.component@)
                    == before.latest_at_view(en.key.entity@, en.key.timeline@, en.key.time, en.key.component@));
            }
            assert forall|j: int| 0 <= j < self.cache.range_entries@.len() implies #[trigger] range_entry_matches(self.cache.range_entries@[j], self.store) by {
                let en = self.cache.range_entries@[j];
                let i = choose|i: int| 0 <= i < cache_before.range_entries@.len() && cache_before.range_entries@[i] == en;
                assert(range_entry_matches(cache_before.range_entries@[i], before));
                assert(no_event_touches_range(evs, en.key.entity@, en.key.timeline@, en.key.lo, en.key.hi, strings_view(en.key.components@)));
            }
            assert forall|e: Seq<char>, tl: Seq<char>| #[trigger] evicted_oldest_first(before.rows(e, Some(tl)), self.store.rows(e, Some(tl)), *policy) by {
                assert(evicted_oldest_first(before.rows(e, Some(tl)), after.rows(e, Some(tl)), *policy));
            }
        }
        report
    }

    pub fn stats(&self) -> (r: DataStoreStats)
        requires
            self.wf(),
        ensures
            r == self.store.stats_spec(),
    {
        self.store.stats()
    }
}

/// No stale reads: in a context that every insertion, collection and query
/// keeps well formed, whatever the interleaving, each cached entry holds what
/// an uncached query against the store answers now, latest-at and range
/// alike.
pub proof fn lemma_no_stale_reads(ctx: StoreContext)
    requires
        ctx.wf(),
    ensures
        forall|i: int| 0 <= i < ctx.cache.entries@.len() ==> {
            let en = #[trigger] ctx.cache.entries@[i];
            en.value@ == resolve(ctx.cache.registry.codec_for(en.key.component@),
                ctx.store.latest_at_view(en.key.entity@, en.key.timeline@, en.key.time, en.key.component@))
        },
        forall|i: int| 0 <= i < ctx.cache.range_entries@.len() ==> {
            let en = #[trigger] ctx.cache.range_entries@[i];
            range_rows_view(en.rows@) == ctx.store.range_view(en.key.entity@, en.key.timeline@, en.key.lo, en.key.hi, strings_view(en.key.components@))
        },
{
    assert forall|i: int| 0 <= i < ctx.cache.entries@.len() implies {
        let en = #[trigger] ctx.cache.entries@[i];
        en.value@ == resolve(ctx.cache.registry.codec_for(en.key.component@),
            ctx.store.latest_at_view(en.key.entity@, en.key.timeline@, en.key.time, en.key.component@))
    } by {
        assert(entry_matches(ctx.cache.entries@[i], ctx.cache.registry, ctx.store));
    }
    assert forall|i: int| 0 <= i < ctx.cache.range_entries@.len() implies {
        let en = #[trigger] ctx.cache.range_entries@[i];
        range_rows_view(en.rows@) == ctx.store.range_view(en.key.entity@, en.key.timeline@, en.key.lo, en.key.hi, strings_view(en.key.components@))
    } by {
        assert(range_entry_matches(ctx.cache.range_entries@[i], ctx.store));
    }
}

} // verus!
