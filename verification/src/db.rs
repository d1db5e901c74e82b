//! The entity database: an in-memory database built from a stream of log
//! messages, orchestrating the chunk store and every derived index.
//!
//! All mutation goes through the public functions here. On every store
//! mutation the resulting diff is fanned out to the derived views in a fixed
//! order — time index, query cache, entity index, then ingestion statistics
//! last, so that the measured latency reflects fully settled state — and the
//! fan-out completes before the mutating call returns.

use vstd::prelude::*;

use crate::chunk::{rows_max_row_id, rows_max_time, rows_min_time, Chunk, ChunkView, RowView, index_in};
use crate::clock::now_nanos_since_epoch;
use crate::ids::{ApplicationId, ResolvedTimeRange, RowId, StoreId, StoreIdView, StoreKind, Timeline};
use crate::path::{
    hash_path, lemma_path_lt_total, lemma_path_lt_trans, path_is_ancestor_or_equal, path_lt,
    ComponentPath, EntityPath, EntityPathHash,
};
use crate::query::Caches;
use crate::stats::{chunk_samples, fold_samples, IngestionStatistics};
use crate::store::{
    chunk_ids, chunk_protected, chunk_rows_weight, chunk_size_weight, gc_dropped, gc_kept, gc_stop,
    protected_in, ChunkStore, ChunkStoreError, ChunkStoreEvent, ChunkStoreGeneration,
    GarbageCollectionOptions, GarbageCollectionTarget,
};
use crate::sums::{
    lemma_seq_count_le_len, lemma_seq_sum_le, lemma_seq_sum_min_one, lemma_seq_sum_push,
    seq_filter, seq_sum,
};
use crate::times::{chunk_time_weight, TimesPerTimeline};
use crate::tree::{
    chunk_comp_static_weight, chunk_comp_temporal_weight, chunk_events_weight,
    chunk_static_events_weight, EntityTree,
};
use crate::ChunkError;

verus! {

/// Advisory soft deadline for one garbage-collection pass, chosen to bound
/// per-frame cost in an interactive consumer.
pub const DEFAULT_GC_TIME_BUDGET_NANOS: u64 = 3500000;

/// What a mutating entrypoint can surface; no partial mutation happens on
/// either.
#[derive(Clone, Copy, PartialEq, Eq, Structural, Debug)]
pub enum Error {
    /// A chunk could not be built from a malformed payload.
    Chunk(ChunkError),
    /// The chunk store rejected an insertion.
    ChunkStore(ChunkStoreError),
}

/// Store metadata, set by a dedicated control message.
#[derive(Debug)]
pub struct StoreInfo {
    pub application_id: ApplicationId,
    pub store_id: StoreId,
    /// When this store is a clone, the id of the store it was cloned from.
    pub cloned_from: Option<StoreId>,
    /// When the recording started, in nanoseconds since the Unix epoch.
    pub started: u64,
}

/// Mathematical value of a [`StoreInfo`].
pub ghost struct StoreInfoView {
    pub application_id: Seq<char>,
    pub store_id: StoreIdView,
    pub cloned_from: Option<StoreIdView>,
    pub started: u64,
}

impl View for StoreInfo {
    type V = StoreInfoView;

    open spec fn view(&self) -> StoreInfoView {
        StoreInfoView {
            application_id: self.application_id@,
            store_id: self.store_id@,
            cloned_from: match self.cloned_from {
                Option::Some(ref id) => Option::Some(id@),
                Option::None => Option::None,
            },
            started: self.started,
        }
    }
}

impl Clone for StoreInfo {
    fn clone(&self) -> (r: Self)
        ensures
            r@ == self@,
    {
        StoreInfo {
            application_id: self.application_id.clone(),
            store_id: self.store_id.clone(),
            cloned_from: match &self.cloned_from {
                Some(id) => Some(id.clone()),
                None => None,
            },
            started: self.started,
        }
    }
}

/// The control message that establishes or overwrites store metadata.
#[derive(Debug)]
pub struct SetStoreInfo {
    pub row_id: RowId,
    pub info: StoreInfo,
}

/// Mathematical value of a [`SetStoreInfo`].
pub ghost struct SetStoreInfoView {
    pub row_id: RowId,
    pub info: StoreInfoView,
}

impl View for SetStoreInfo {
    type V = SetStoreInfoView;

    open spec fn view(&self) -> SetStoreInfoView {
        SetStoreInfoView { row_id: self.row_id, info: self.info@ }
    }
}

impl Clone for SetStoreInfo {
    fn clone(&self) -> (r: Self)
        ensures
            r@ == self@,
    {
        SetStoreInfo { row_id: self.row_id, info: self.info.clone() }
    }
}

/// Signals that a blueprint store should become active and/or the default.
/// This layer does not act on it; an outer collaborator does.
#[derive(Debug)]
pub struct BlueprintActivationCommand {
    pub blueprint_id: StoreId,
    pub make_active: bool,
    pub make_default: bool,
}

impl BlueprintActivationCommand {
    /// The command that makes the blueprint active and the default.
    pub fn make_active(blueprint_id: StoreId) -> (r: BlueprintActivationCommand)
        ensures
            r.blueprint_id@ == blueprint_id@,
            r.make_active,
            r.make_default,
    {
        BlueprintActivationCommand { blueprint_id, make_active: true, make_default: true }
    }
}

impl Clone for BlueprintActivationCommand {
    fn clone(&self) -> (r: Self)
        ensures
            r.blueprint_id@ == self.blueprint_id@,
            r.make_active == self.make_active,
            r.make_default == self.make_default,
    {
        BlueprintActivationCommand {
            blueprint_id: self.blueprint_id.clone(),
            make_active: self.make_active,
            make_default: self.make_default,
        }
    }
}

/// The inbound and outbound message protocol.
#[derive(Debug)]
pub enum LogMsg {
    /// Establishes or overwrites store metadata.
    SetStoreInfo(SetStoreInfo),
    /// Carries one chunk payload for the named store. The payload may be
    /// malformed or unsorted; [`EntityDb::add`] validates and sorts it.
    Data(StoreId, Chunk),
    /// Signals blueprint activation; a no-op at this layer.
    BlueprintActivationCommand(BlueprintActivationCommand),
}

impl Clone for LogMsg {
    fn clone(&self) -> (r: Self)
        ensures
            r is SetStoreInfo == self is SetStoreInfo,
            r is Data == self is Data,
            r is BlueprintActivationCommand == self is BlueprintActivationCommand,
            self is SetStoreInfo ==> r->SetStoreInfo_0@ == self->SetStoreInfo_0@,
            self is Data ==> r->Data_0@ == self->Data_0@ && r->Data_1@ == self->Data_1@,
            self is BlueprintActivationCommand ==> r->BlueprintActivationCommand_0.blueprint_id@
                == self->BlueprintActivationCommand_0.blueprint_id@
                && r->BlueprintActivationCommand_0.make_active
                == self->BlueprintActivationCommand_0.make_active
                && r->BlueprintActivationCommand_0.make_default
                == self->BlueprintActivationCommand_0.make_default,
    {
        match self {
            LogMsg::SetStoreInfo(m) => LogMsg::SetStoreInfo(m.clone()),
            LogMsg::Data(id, c) => LogMsg::Data(id.clone(), c.clone()),
            LogMsg::BlueprintActivationCommand(cmd) => LogMsg::BlueprintActivationCommand(
                cmd.clone(),
            ),
        }
    }
}

/// Whether a chunk overlaps the requested replay window: no window keeps
/// everything; a window keeps a chunk when any part of its span on the
/// window's timeline intersects the window.
pub open spec fn chunk_in_selection(c: ChunkView, sel: Option<(Seq<char>, ResolvedTimeRange)>) -> bool {
    match sel {
        Option::None => true,
        Option::Some((tl, range)) => c.timelines.contains(tl) && rows_min_time(
            c.rows,
            index_in(c.timelines, tl),
        ) <= range.max && range.min <= rows_max_time(c.rows, index_in(c.timelines, tl)),
    }
}

/// [`chunk_in_selection`] as a predicate over chunks.
pub open spec fn in_selection(sel: Option<(Seq<char>, ResolvedTimeRange)>) -> spec_fn(
    ChunkView,
) -> bool {
    |c: ChunkView| chunk_in_selection(c, sel)
}

/// An in-memory database built from a stream of [`LogMsg`]s.
///
/// All mutation is done via the public functions; after any mutating call
/// returns, every derived index agrees with the chunk store's content.
pub struct EntityDb {
    /// Set by whoever created this database; a clone gets `None`, since a
    /// mutated clone must not claim provenance from a live ingestion
    /// pipeline it is no longer attached to.
    data_source: Option<String>,
    set_store_info: Option<SetStoreInfo>,
    /// When data was last inserted, in wall-clock nanoseconds since the
    /// Unix epoch.
    last_modified_at_nanos: u64,
    /// The highest row id ever inserted — the last edit time. Never lowered
    /// by deletions: it tracks the most recent ingestion, not the most
    /// recent surviving row.
    latest_row_id: Option<RowId>,
    /// Every entity path present in at least one stored chunk, in strictly
    /// increasing path order.
    entity_path_registry: Vec<EntityPath>,
    times_per_timeline: TimesPerTimeline,
    tree: EntityTree,
    data_store: ChunkStore,
    query_caches: Caches,
    stats: IngestionStatistics,
}

impl EntityDb {
    /// The chunks currently stored, oldest insertion first: the model every
    /// derived index is held to.
    pub closed spec fn chunks(&self) -> Seq<ChunkView> {
        self.data_store.chunks_view()
    }

    pub closed spec fn store_id_view(&self) -> StoreIdView {
        self.data_store.id_view()
    }

    pub closed spec fn info_view(&self) -> Option<SetStoreInfoView> {
        match self.set_store_info {
            Option::Some(ref m) => Option::Some(m@),
            Option::None => Option::None,
        }
    }

    pub closed spec fn data_source_view(&self) -> Option<Seq<char>> {
        match self.data_source {
            Option::Some(ref s) => Option::Some(s@),
            Option::None => Option::None,
        }
    }

    pub closed spec fn latest_row_id_spec(&self) -> Option<RowId> {
        self.latest_row_id
    }

    pub closed spec fn last_modified_at_spec(&self) -> u64 {
        self.last_modified_at_nanos
    }

    /// The registered entity paths, in strictly increasing path order.
    pub closed spec fn entity_paths_view(&self) -> Seq<Seq<Seq<char>>> {
        self.entity_path_registry@.map_values(|p: EntityPath| p@)
    }

    pub closed spec fn stats_view(&self) -> IngestionStatistics {
        self.stats
    }

    pub closed spec fn tree_view(&self) -> EntityTree {
        self.tree
    }

    pub closed spec fn times_view(&self) -> TimesPerTimeline {
        self.times_per_timeline
    }

    /// Internal coherence: the store is sound, the registry is exactly the
    /// sorted set of stored entity paths, and every derived index agrees
    /// pointwise with the stored chunks.
    pub closed spec fn wf(&self) -> bool {
        &&& self.data_store.wf()
        &&& forall|i: int, j: int|
            0 <= i < j < self.entity_paths_view().len() ==> path_lt(
                #[trigger] self.entity_paths_view()[i],
                #[trigger] self.entity_paths_view()[j],
            )
        &&& forall|i: int|
            0 <= i < self.entity_paths_view().len() ==> exists|c: int|
                0 <= c < self.chunks().len() && (#[trigger] self.chunks()[c]).entity_path == (
                #[trigger] self.entity_paths_view()[i])
        &&& forall|c: int|
            0 <= c < self.chunks().len() ==> self.entity_paths_view().contains(
                (#[trigger] self.chunks()[c]).entity_path,
            )
        &&& self.times_per_timeline.wf()
        &&& forall|tl: Seq<char>, t: i64|
            #[trigger] self.times_per_timeline.count_of(tl, t) == seq_sum(
                self.chunks(),
                chunk_time_weight(tl, t),
            )
        &&& self.tree.wf()
        &&& forall|e: Seq<Seq<char>>, c: Seq<char>|
            #[trigger] self.tree.static_of(e, c) == seq_sum(
                self.chunks(),
                chunk_comp_static_weight(e, c),
            )
        &&& forall|e: Seq<Seq<char>>, c: Seq<char>|
            #[trigger] self.tree.temporal_of(e, c) == seq_sum(
                self.chunks(),
                chunk_comp_temporal_weight(e, c),
            )
        &&& forall|tl: Seq<char>, t: i64|
            #[trigger] self.tree.root().count_of(tl, t) == seq_sum(
                self.chunks(),
                chunk_events_weight(tl, t),
            )
        &&& self.tree.spec_total_static() == seq_sum(self.chunks(), chunk_static_events_weight())
        &&& self.query_caches.chunks_view() == self.chunks()
        &&& forall|c: int|
            0 <= c < self.chunks().len() ==> self.latest_row_id is Some && !(
            self.latest_row_id->0).spec_lt(rows_max_row_id((#[trigger] self.chunks()[c]).rows))
        &&& self.stats.wf()
        &&& self.stats.id_view() == self.data_store.id_view()
    }

    /// A fresh, empty database under the given store id.
    pub fn new(store_id: StoreId) -> (r: EntityDb)
        ensures
            r.wf(),
            r.store_id_view() == store_id@,
            r.chunks() =~= Seq::<ChunkView>::empty(),
            r.info_view() is None,
            r.data_source_view() is None,
            r.latest_row_id_spec() is None,
            r.entity_paths_view() =~= Seq::<Seq<Seq<char>>>::empty(),
            r.times_view().timeline_names() =~= Seq::<Seq<char>>::empty(),
            r.stats_view().samples_view() =~= Seq::<(u64, u64)>::empty(),
            r.spec_insert_id() == 0,
    {
        let stats_id = store_id.clone();
        let r = EntityDb {
            data_source: None,
            set_store_info: None,
            last_modified_at_nanos: 0,
            latest_row_id: None,
            entity_path_registry: Vec::new(),
            times_per_timeline: TimesPerTimeline::new(),
            tree: EntityTree::new(),
            data_store: ChunkStore::new(store_id),
            query_caches: Caches::new(),
            stats: IngestionStatistics::new(stats_id),
        };
        proof {
            assert(r.entity_paths_view() =~= Seq::<Seq<Seq<char>>>::empty());
            assert forall|tl: Seq<char>, t: i64|
                #[trigger] r.times_per_timeline.count_of(tl, t) == seq_sum(
                    r.chunks(),
                    chunk_time_weight(tl, t),
                ) by {
                assert(r.times_per_timeline.entries().len() == 0);
                assert(r.chunks().len() == 0);
            }
            assert forall|e: Seq<Seq<char>>, c: Seq<char>|
                #[trigger] r.tree.static_of(e, c) == seq_sum(
                    r.chunks(),
                    chunk_comp_static_weight(e, c),
                ) && #[trigger] r.tree.temporal_of(e, c) == seq_sum(
                    r.chunks(),
                    chunk_comp_temporal_weight(e, c),
                ) by {
                assert(r.tree.comp_entries().len() == 0);
            }
            assert forall|tl: Seq<char>, t: i64|
                #[trigger] r.tree.root().count_of(tl, t) == seq_sum(
                    r.chunks(),
                    chunk_events_weight(tl, t),
                ) by {
                assert(r.tree.root().entries().len() == 0);
            }
            assert(r.query_caches.chunks_view() =~= r.chunks());
        }
        r
    }

    /// The entity index.
    pub fn tree(&self) -> (r: &EntityTree)
        ensures
            r == self.tree_view(),
            self.wf() ==> r.wf(),
    {
        &self.tree
    }

    /// The backing chunk store.
    pub fn data_store(&self) -> (r: &ChunkStore)
        ensures
            r.chunks_view() == self.chunks(),
            r.id_view() == self.store_id_view(),
            self.wf() ==> r.wf(),
    {
        &self.data_store
    }

    /// The backing chunk store (an alias of [`EntityDb::data_store`]).
    pub fn store(&self) -> (r: &ChunkStore)
        ensures
            r.chunks_view() == self.chunks(),
            r.id_view() == self.store_id_view(),
            self.wf() ==> r.wf(),
    {
        &self.data_store
    }

    /// The query cache.
    pub fn query_caches(&self) -> (r: &Caches)
        ensures
            self.wf() ==> r.chunks_view() == self.chunks(),
    {
        &self.query_caches
    }

    pub fn store_info_msg(&self) -> (r: Option<&SetStoreInfo>)
        ensures
            match r {
                Some(m) => self.info_view() == Some(m@),
                None => self.info_view() is None,
            },
    {
        self.set_store_info.as_ref()
    }

    pub fn store_info(&self) -> (r: Option<&StoreInfo>)
        ensures
            match r {
                Some(info) => self.info_view() is Some && self.info_view()->0.info == info@,
                None => self.info_view() is None,
            },
    {
        match &self.set_store_info {
            Some(m) => Some(&m.info),
            None => None,
        }
    }

    pub fn app_id(&self) -> (r: Option<&ApplicationId>)
        ensures
            match r {
                Some(a) => self.info_view() is Some && self.info_view()->0.info.application_id
                    == a@,
                None => self.info_view() is None,
            },
    {
        match &self.set_store_info {
            Some(m) => Some(&m.info.application_id),
            None => None,
        }
    }

    /// When this database is a clone, the id of the store it was cloned
    /// from. A clone always gets a new unique id.
    pub fn cloned_from(&self) -> (r: Option<&StoreId>)
        ensures
            match r {
                Some(id) => self.info_view() is Some && self.info_view()->0.info.cloned_from
                    == Some(id@),
                None => self.info_view() is None || self.info_view()->0.info.cloned_from is None,
            },
    {
        match &self.set_store_info {
            Some(m) => match &m.info.cloned_from {
                Some(id) => Some(id),
                None => None,
            },
            None => None,
        }
    }

    pub fn store_id(&self) -> (r: &StoreId)
        ensures
            r@ == self.store_id_view(),
    {
        self.data_store.id()
    }

    pub fn store_kind(&self) -> (r: StoreKind)
        ensures
            r == self.store_id_view().kind,
    {
        self.data_store.id().kind
    }

    /// The global time index.
    pub fn times_per_timeline(&self) -> (r: &TimesPerTimeline)
        ensures
            r == self.times_view(),
            self.wf() ==> r.wf(),
    {
        &self.times_per_timeline
    }

    /// Every timeline ever seen, in order of first appearance.
    pub fn timelines(&self) -> (r: &Vec<Timeline>)
        ensures
            r@.map_values(|t: Timeline| t@) == self.times_view().timeline_names(),
    {
        self.times_per_timeline.timelines()
    }

    /// The store's generation token: it changes on every mutation, so a
    /// caller can detect staleness without re-scanning.
    pub fn generation(&self) -> (r: ChunkStoreGeneration)
        ensures
            r.insert_id == self.spec_insert_id(),
            r.gc_id == self.spec_gc_id(),
    {
        self.data_store.generation()
    }

    /// When data was last inserted, in wall-clock nanoseconds since the
    /// Unix epoch.
    pub fn last_modified_at(&self) -> (r: u64)
        ensures
            r == self.last_modified_at_spec(),
    {
        self.last_modified_at_nanos
    }

    /// The highest row id ever inserted; unaffected by garbage collection.
    pub fn latest_row_id(&self) -> (r: Option<RowId>)
        ensures
            r == self.latest_row_id_spec(),
    {
        self.latest_row_id
    }

    /// Where this database's data comes from; a clone has none.
    pub fn data_source(&self) -> (r: Option<&String>)
        ensures
            match r {
                Some(src) => self.data_source_view() == Some(src@),
                None => self.data_source_view() is None,
            },
    {
        self.data_source.as_ref()
    }

    /// The mean end-to-end ingestion latency in nanoseconds as of wall-clock
    /// time `now_nanos`, after flushing expired samples; `None` once every
    /// sample has aged out — in particular once no ingestion has happened for
    /// longer than the window.
    pub fn current_e2e_latency_nanos_at(&mut self, now_nanos: u64) -> (r: Option<u64>)
        requires
            old(self).wf(),
        ensures
            final(self).wf(),
            final(self).chunks() == old(self).chunks(),
            final(self).info_view() == old(self).info_view(),
            final(self).latest_row_id_spec() == old(self).latest_row_id_spec(),
            final(self).entity_paths_view() == old(self).entity_paths_view(),
            final(self).store_id_view() == old(self).store_id_view(),
            r is None <==> final(self).stats_view().samples_view().len() == 0,
            ({
                let smp = final(self).stats_view().samples_view();
                match r {
                    Some(mean) => smp.len() > 0 && mean == crate::stats::samples_sum(smp)
                        / smp.len(),
                    None => smp.len() == 0,
                }
            }),
            (forall|j: int|
                0 <= j < old(self).stats_view().samples_view().len() ==> (#[trigger] old(
                    self,
                ).stats_view().samples_view()[j]).0 + crate::stats::MAX_SAMPLE_AGE_NANOS
                    < now_nanos) ==> r is None,
    {
        let ghost pre = *self;
        let r = self.stats.current_e2e_latency_nanos_at(now_nanos);
        proof {
            lemma_wf_fields(pre, *self);
            if forall|j: int|
                0 <= j < old(self).stats_view().samples_view().len() ==> (#[trigger] old(
                    self,
                ).stats_view().samples_view()[j]).0 + crate::stats::MAX_SAMPLE_AGE_NANOS
                    < now_nanos {
                assert forall|j: int|
                    0 <= j < pre.stats.samples_view().len() implies (
                #[trigger] pre.stats.samples_view()[j]).0 + crate::stats::MAX_SAMPLE_AGE_NANOS
                    < now_nanos by {
                    assert(pre.stats.samples_view()[j] == old(
                        self,
                    ).stats_view().samples_view()[j]);
                }
            }
        }
        r
    }

    /// The mean end-to-end ingestion latency in nanoseconds as of now:
    /// expired samples are flushed first, and the metric is "unknown" exactly
    /// when no sample remains — whatever the clock said.
    pub fn current_e2e_latency_nanos(&mut self) -> (r: Option<u64>)
        requires
            old(self).wf(),
        ensures
            final(self).wf(),
            final(self).chunks() == old(self).chunks(),
            final(self).info_view() == old(self).info_view(),
            final(self).latest_row_id_spec() == old(self).latest_row_id_spec(),
            final(self).entity_paths_view() == old(self).entity_paths_view(),
            final(self).store_id_view() == old(self).store_id_view(),
            ({
                let smp = final(self).stats_view().samples_view();
                match r {
                    Some(mean) => smp.len() > 0 && mean == crate::stats::samples_sum(smp)
                        / smp.len(),
                    None => smp.len() == 0,
                }
            }),
    {
        let now = now_nanos_since_epoch();
        self.current_e2e_latency_nanos_at(now)
    }

    /// The ingestion-latency tracker.
    pub fn ingestion_stats(&self) -> (r: &IngestionStatistics)
        ensures
            r == self.stats_view(),
            self.wf() ==> r.wf(),
    {
        &self.stats
    }
}

} // verus!

verus! {

/// Per-row counts on one timeline never exceed the chunks' row counts.
pub proof fn lemma_sum_time_le_rows(chunks: Seq<ChunkView>, tl: Seq<char>, t: i64)
    ensures
        seq_sum(chunks, chunk_time_weight(tl, t)) <= seq_sum(chunks, chunk_rows_weight()),
{
    assert forall|i: int| 0 <= i < chunks.len() implies chunk_time_weight(tl, t)(
        #[trigger] chunks[i],
    ) <= chunk_rows_weight()(chunks[i]) by {
        let c = chunks[i];
        if c.timelines.contains(tl) {
            lemma_seq_count_le_len(c.rows, crate::chunk::row_time_is(index_in(c.timelines, tl), t));
        }
    }
    lemma_seq_sum_le(chunks, chunk_time_weight(tl, t), chunk_rows_weight());
}

/// Per-component counts never exceed the chunks' row counts.
pub proof fn lemma_sum_comp_le_rows(chunks: Seq<ChunkView>, e: Seq<Seq<char>>, c: Seq<char>)
    ensures
        seq_sum(chunks, chunk_comp_static_weight(e, c)) <= seq_sum(chunks, chunk_rows_weight()),
        seq_sum(chunks, chunk_comp_temporal_weight(e, c)) <= seq_sum(chunks, chunk_rows_weight()),
{
    assert forall|i: int| 0 <= i < chunks.len() implies chunk_comp_static_weight(e, c)(
        #[trigger] chunks[i],
    ) <= chunk_rows_weight()(chunks[i]) && chunk_comp_temporal_weight(e, c)(chunks[i])
        <= chunk_rows_weight()(chunks[i]) by {
        let ch = chunks[i];
        if ch.components.contains(c) {
            lemma_seq_count_le_len(
                ch.rows,
                crate::chunk::row_comp_some(index_in(ch.components, c)),
            );
        }
    }
    lemma_seq_sum_le(chunks, chunk_comp_static_weight(e, c), chunk_rows_weight());
    lemma_seq_sum_le(chunks, chunk_comp_temporal_weight(e, c), chunk_rows_weight());
}

/// Event counts never exceed the chunks' byte sizes.
pub proof fn lemma_sum_events_le_size(chunks: Seq<ChunkView>, tl: Seq<char>, t: i64)
    ensures
        seq_sum(chunks, chunk_events_weight(tl, t)) <= seq_sum(chunks, chunk_size_weight()),
        seq_sum(chunks, chunk_static_events_weight()) <= seq_sum(chunks, chunk_size_weight()),
{
    assert forall|i: int| 0 <= i < chunks.len() implies chunk_events_weight(tl, t)(
        #[trigger] chunks[i],
    ) <= chunk_size_weight()(chunks[i]) && chunk_static_events_weight()(chunks[i])
        <= chunk_size_weight()(chunks[i]) by {
        let ch = chunks[i];
        assert forall|r: int| 0 <= r < ch.rows.len() implies crate::chunk::row_some_weight()(
            #[trigger] ch.rows[r],
        ) <= (#[trigger] ch.rows[r]).size() by {
            crate::chunk::lemma_row_some_le_size(ch.rows[r]);
        }
        if ch.timelines.contains(tl) {
            let tk = index_in(ch.timelines, tl);
            assert forall|r: int| 0 <= r < ch.rows.len() implies crate::chunk::row_events_weight(
                tk,
                t,
            )(#[trigger] ch.rows[r]) <= (#[trigger] ch.rows[r]).size() by {
                crate::chunk::lemma_row_some_le_size(ch.rows[r]);
            }
            lemma_seq_sum_le(
                ch.rows,
                crate::chunk::row_events_weight(tk, t),
                |r: RowView| r.size(),
            );
        }
        if ch.is_static() {
            lemma_seq_sum_le(ch.rows, crate::chunk::row_some_weight(), |r: RowView| r.size());
        }
    }
    lemma_seq_sum_le(chunks, chunk_events_weight(tl, t), chunk_size_weight());
    lemma_seq_sum_le(chunks, chunk_static_events_weight(), chunk_size_weight());
}

impl EntityDb {
    /// Registers the chunk's entity path: insert-if-absent, keeping the
    /// registry strictly sorted.
    fn register_entity_path(&mut self, path: &EntityPath)
        requires
            forall|i: int, j: int|
                0 <= i < j < old(self).entity_paths_view().len() ==> path_lt(
                    #[trigger] old(self).entity_paths_view()[i],
                    #[trigger] old(self).entity_paths_view()[j],
                ),
        ensures
            forall|i: int, j: int|
                0 <= i < j < final(self).entity_paths_view().len() ==> path_lt(
                    #[trigger] final(self).entity_paths_view()[i],
                    #[trigger] final(self).entity_paths_view()[j],
                ),
            forall|q: Seq<Seq<char>>|
                final(self).entity_paths_view().contains(q) <==> old(
                    self,
                ).entity_paths_view().contains(q) || q == path@,
            final(self).data_store == old(self).data_store,
            final(self).times_per_timeline == old(self).times_per_timeline,
            final(self).tree == old(self).tree,
            final(self).query_caches == old(self).query_caches,
            final(self).stats == old(self).stats,
            final(self).set_store_info == old(self).set_store_info,
            final(self).data_source == old(self).data_source,
            final(self).latest_row_id == old(self).latest_row_id,
            final(self).last_modified_at_nanos == old(self).last_modified_at_nanos,
    {
        let ghost before = self.entity_paths_view();
        let n = self.entity_path_registry.len();
        let mut j: usize = 0;
        while j < n && self.entity_path_registry[j].lt(path)
            invariant
                j <= n,
                n == self.entity_path_registry.len(),
                *self == *old(self),
                before == self.entity_paths_view(),
                forall|a: int| 0 <= a < j ==> path_lt(#[trigger] before[a], path@),
            decreases n - j,
        {
            proof {
                assert(before[j as int] == self.entity_path_registry@[j as int]@);
            }
            j = j + 1;
        }
        proof {
            if j < n {
                assert(before[j as int] == self.entity_path_registry@[j as int]@);
            }
        }
        // here every entry before j precedes the path, and if j is in range
        // the entry at j does not precede it
        if j < n {
            proof {
                assert(before[j as int] == self.entity_path_registry@[j as int]@);
            }
            if self.entity_path_registry[j].eq(path) {
                proof {
                    assert(before.contains(path@)) by {
                        assert(before[j as int] == path@);
                    }
                    assert forall|q: Seq<Seq<char>>|
                        self.entity_paths_view().contains(q) <==> old(
                            self,
                        ).entity_paths_view().contains(q) || q == path@ by {}
                }
                return ;
            }
        }
        let ghost jj = j as int;
        proof {
            if jj < before.len() {
                assert(!path_lt(before[jj], path@) && before[jj] != path@);
                lemma_path_lt_total(before[jj], path@);
                assert(path_lt(path@, before[jj]));
            }
            assert(!before.contains(path@)) by {
                if before.contains(path@) {
                    let w = choose|w: int| 0 <= w < before.len() && before[w] == path@;
                    if w < jj {
                        assert(path_lt(before[w], path@));
                        lemma_path_lt_total(path@, path@);
                    } else {
                        assert(w > jj || w == jj);
                        if w == jj {
                        } else {
                            assert(path_lt(before[jj], before[w]));
                            assert(path_lt(path@, before[jj]));
                            lemma_path_lt_total(path@, before[w]);
                            lemma_path_lt_trans(path@, before[jj], before[w]);
                        }
                    }
                }
            }
        }
        self.entity_path_registry.insert(j, path.clone());
        proof {
            let after = self.entity_paths_view();
            assert(after =~= before.insert(jj, path@));
            assert(forall|a: int| 0 <= a < jj ==> #[trigger] after[a] == before[a]);
            assert(after[jj] == path@);
            assert(forall|b: int| jj < b < after.len() ==> #[trigger] after[b] == before[b - 1]);
            assert forall|a: int, b: int| 0 <= a < b < after.len() implies path_lt(
                #[trigger] after[a],
                #[trigger] after[b],
            ) by {
                if b < jj {
                } else if b == jj {
                    assert(path_lt(before[a], path@));
                } else if a == jj {
                    if b == jj + 1 {
                        assert(path_lt(path@, before[jj]));
                    } else {
                        assert(path_lt(path@, before[jj]));
                        assert(path_lt(before[jj], before[b - 1]));
                        lemma_path_lt_trans(path@, before[jj], before[b - 1]);
                    }
                } else if a < jj {
                    if a < b - 1 {
                        assert(path_lt(before[a], before[b - 1]));
                    } else {
                        assert(path_lt(before[a], path@));
                        assert(path_lt(path@, before[jj]));
                        lemma_path_lt_trans(before[a], path@, before[jj]);
                    }
                } else {
                    assert(path_lt(before[a - 1], before[b - 1]));
                }
            }
            assert forall|q: Seq<Seq<char>>| after.contains(q) <==> before.contains(q) || q
                == path@ by {
                if after.contains(q) {
                    let w = choose|w: int| 0 <= w < after.len() && after[w] == q;
                    if w < jj {
                        assert(before[w] == q);
                    } else if w == jj {
                    } else {
                        assert(before[w - 1] == q);
                    }
                }
                if before.contains(q) {
                    let w = choose|w: int| 0 <= w < before.len() && before[w] == q;
                    if w < jj {
                        assert(after[w] == q);
                    } else {
                        assert(after[w + 1] == q);
                    }
                }
                if q == path@ {
                    assert(after[jj] == q);
                }
            }
        }
    }

    /// A sorted list of all the entity paths in this database.
    pub fn entity_paths(&self) -> (r: Vec<EntityPath>)
        requires
            self.wf(),
        ensures
            r@.map_values(|p: EntityPath| p@) == self.entity_paths_view(),
            forall|i: int, j: int|
                0 <= i < j < r@.len() ==> path_lt(#[trigger] r@[i]@, #[trigger] r@[j]@),
            forall|q: Seq<Seq<char>>|
                self.entity_paths_view().contains(q) <==> exists|c: int|
                    0 <= c < self.chunks().len() && (#[trigger] self.chunks()[c]).entity_path == q,
    {
        let n = self.entity_path_registry.len();
        let mut out: Vec<EntityPath> = Vec::new();
        let mut i: usize = 0;
        while i < n
            invariant
                i <= n,
                n == self.entity_path_registry.len(),
                out@.len() == i,
                forall|j: int| 0 <= j < i ==> #[trigger] out@[j]@ == self.entity_paths_view()[j],
            decreases n - i,
        {
            let p = self.entity_path_registry[i].clone();
            proof {
                assert(self.entity_paths_view()[i as int] == self.entity_path_registry@[i as int]@);
            }
            out.push(p);
            i = i + 1;
        }
        proof {
            assert(out@.map_values(|p: EntityPath| p@) =~= self.entity_paths_view());
            assert forall|q: Seq<Seq<char>>|
                self.entity_paths_view().contains(q) <==> exists|c: int|
                    0 <= c < self.chunks().len() && (#[trigger] self.chunks()[c]).entity_path
                        == q by {
                if self.entity_paths_view().contains(q) {
                    let w = choose|w: int|
                        0 <= w < self.entity_paths_view().len() && self.entity_paths_view()[w]
                            == q;
                }
            }
        }
        out
    }

    /// Whether any data currently sits anywhere on the given timeline.
    pub fn has_any_data_on_timeline(&self, timeline: &Timeline) -> (r: bool)
        requires
            self.wf(),
        ensures
            r == exists|t: i64| seq_sum(self.chunks(), chunk_time_weight(timeline@, t)) > 0,
    {
        let r = self.times_per_timeline.has_data_on(timeline);
        proof {
            if r {
                let t = choose|t: i64| self.times_per_timeline.count_of(timeline@, t) > 0;
                assert(seq_sum(self.chunks(), chunk_time_weight(timeline@, t)) > 0);
            } else {
                if exists|t: i64| seq_sum(self.chunks(), chunk_time_weight(timeline@, t)) > 0 {
                    let t = choose|t: i64|
                        seq_sum(self.chunks(), chunk_time_weight(timeline@, t)) > 0;
                    assert(self.times_per_timeline.count_of(timeline@, t) > 0);
                }
            }
        }
        r
    }

    /// The time range of data on the given timeline, ignoring static data
    /// entirely: static data never affects this result, and an entity with
    /// only static data yields `None` for every timeline.
    pub fn time_range_for(&self, timeline: &Timeline) -> (r: Option<ResolvedTimeRange>)
        requires
            self.wf(),
        ensures
            match r {
                Some(rng) => seq_sum(self.chunks(), chunk_time_weight(timeline@, rng.min)) > 0
                    && seq_sum(self.chunks(), chunk_time_weight(timeline@, rng.max)) > 0 && forall|
                    t: i64,
                |
                    seq_sum(self.chunks(), #[trigger] chunk_time_weight(timeline@, t)) > 0
                        ==> rng.min <= t <= rng.max,
                None => forall|t: i64|
                    seq_sum(self.chunks(), #[trigger] chunk_time_weight(timeline@, t)) == 0,
            },
    {
        let r = self.times_per_timeline.time_range(timeline);
        proof {
            match r {
                Some(rng) => {
                    assert forall|t: i64|
                        seq_sum(self.chunks(), #[trigger] chunk_time_weight(timeline@, t)) > 0
                            implies rng.min <= t <= rng.max by {
                        assert(self.times_per_timeline.count_of(timeline@, t) > 0);
                    }
                },
                None => {
                    assert forall|t: i64|
                        seq_sum(self.chunks(), #[trigger] chunk_time_weight(timeline@, t))
                            == 0 by {
                        assert(self.times_per_timeline.count_of(timeline@, t) == 0);
                    }
                },
            }
        }
        r
    }

    /// Histogram of all events on the timeline, over all entities: every
    /// (time, count) pair with a positive count, each time once.
    pub fn time_histogram(&self, timeline: &Timeline) -> (r: Vec<(i64, u64)>)
        requires
            self.wf(),
        ensures
            forall|i: int|
                0 <= i < r@.len() ==> (#[trigger] r@[i]).1 == seq_sum(
                    self.chunks(),
                    chunk_events_weight(timeline@, r@[i].0),
                ) && r@[i].1 > 0,
            forall|i: int, j: int| 0 <= i < j < r@.len() ==> (#[trigger] r@[i]).0 != (
            #[trigger] r@[j]).0,
            forall|t: i64|
                seq_sum(self.chunks(), #[trigger] chunk_events_weight(timeline@, t)) > 0
                    ==> exists|i: int| 0 <= i < r@.len() && (#[trigger] r@[i]).0 == t,
    {
        let r = self.tree.time_histogram(timeline);
        proof {
            assert forall|t: i64|
                seq_sum(self.chunks(), #[trigger] chunk_events_weight(timeline@, t)) > 0
                    implies exists|i: int| 0 <= i < r@.len() && (#[trigger] r@[i]).0 == t by {
                assert(self.tree.root().count_of(timeline@, t) > 0);
            }
        }
        r
    }

    /// Total number of static events over all entities and components.
    pub fn num_static_messages(&self) -> (r: u64)
        requires
            self.wf(),
        ensures
            r == seq_sum(self.chunks(), chunk_static_events_weight()),
    {
        self.tree.num_static_messages()
    }

    /// Whether all of a component's recorded events are static; `None` when
    /// the entity or component holds no data at all.
    pub fn is_component_static(&self, component_path: &ComponentPath) -> (r: Option<bool>)
        requires
            self.wf(),
        ensures
            ({
                let e = component_path.entity_path@;
                let c = component_path.component_name@;
                match r {
                    Some(b) => (seq_sum(self.chunks(), chunk_comp_static_weight(e, c)) + seq_sum(
                        self.chunks(),
                        chunk_comp_temporal_weight(e, c),
                    ) > 0) && b == (seq_sum(self.chunks(), chunk_comp_temporal_weight(e, c)) == 0),
                    None => seq_sum(self.chunks(), chunk_comp_static_weight(e, c)) == 0 && seq_sum(
                        self.chunks(),
                        chunk_comp_temporal_weight(e, c),
                    ) == 0,
                }
            }),
    {
        self.tree.is_component_static(component_path)
    }

    /// Total number of rows currently stored.
    pub fn num_rows(&self) -> (r: u64)
        requires
            self.wf(),
        ensures
            r == seq_sum(self.chunks(), chunk_rows_weight()),
    {
        self.data_store.stats().total_num_rows
    }

    /// Bytes attributed to the stored chunks.
    pub fn heap_size_bytes(&self) -> (r: u64)
        requires
            self.wf(),
        ensures
            r == seq_sum(self.chunks(), chunk_size_weight()),
    {
        self.data_store.stats().total_size_bytes
    }

    /// A database is empty until it has metadata or data.
    pub fn is_empty(&self) -> (r: bool)
        requires
            self.wf(),
        ensures
            r == (self.info_view() is None && seq_sum(self.chunks(), chunk_rows_weight()) == 0),
    {
        self.set_store_info.is_none() && self.num_rows() == 0
    }

    /// The registered entity path with the given hash, if any: the first one
    /// in path order.
    pub fn entity_path_from_hash(&self, entity_path_hash: &EntityPathHash) -> (r: Option<
        &EntityPath,
    >)
        ensures
            match r {
                Some(p) => self.entity_paths_view().contains(p@) && hash_path(p@)
                    == entity_path_hash.hash,
                None => forall|i: int|
                    0 <= i < self.entity_paths_view().len() ==> hash_path(
                        #[trigger] self.entity_paths_view()[i],
                    ) != entity_path_hash.hash,
            },
    {
        let n = self.entity_path_registry.len();
        let mut i: usize = 0;
        while i < n
            invariant
                i <= n,
                n == self.entity_path_registry.len(),
                forall|j: int|
                    0 <= j < i ==> hash_path(#[trigger] self.entity_paths_view()[j])
                        != entity_path_hash.hash,
            decreases n - i,
        {
            proof {
                assert(self.entity_paths_view()[i as int] == self.entity_path_registry@[i as int]@);
            }
            let h = self.entity_path_registry[i].hash();
            if h.hash == entity_path_hash.hash {
                proof {
                    assert(self.entity_paths_view().contains(self.entity_paths_view()[i as int]));
                }
                return Some(&self.entity_path_registry[i]);
            }
            i = i + 1;
        }
        None
    }

    /// Whether the path names a node of the entity hierarchy: an entity that
    /// was logged to, or an ancestor of one. In particular every logged
    /// entity is known.
    pub fn is_known_entity(&self, entity_path: &EntityPath) -> (r: bool)
        requires
            self.wf(),
        ensures
            r == exists|i: int|
                0 <= i < self.entity_paths_view().len() && path_is_ancestor_or_equal(
                    entity_path@,
                    #[trigger] self.entity_paths_view()[i],
                ),
    {
        let n = self.entity_path_registry.len();
        let mut i: usize = 0;
        while i < n
            invariant
                i <= n,
                n == self.entity_path_registry.len(),
                forall|j: int|
                    0 <= j < i ==> !path_is_ancestor_or_equal(
                        entity_path@,
                        #[trigger] self.entity_paths_view()[j],
                    ),
            decreases n - i,
        {
            proof {
                assert(self.entity_paths_view()[i as int] == self.entity_path_registry@[i as int]@);
            }
            if entity_path.is_ancestor_or_equal(&self.entity_path_registry[i]) {
                proof {
                    assert(path_is_ancestor_or_equal(
                        entity_path@,
                        self.entity_paths_view()[i as int],
                    ));
                }
                return true;
            }
            i = i + 1;
        }
        false
    }

    /// Whether something was logged to exactly this path: true for
    /// `world/points` once it holds data, but not for `world` alone. A
    /// logged entity is always a known one (see
    /// [`crate::laws::lemma_logged_entity_is_known`]); a pure ancestor is
    /// known but not logged.
    pub fn is_logged_entity(&self, entity_path: &EntityPath) -> (r: bool)
        requires
            self.wf(),
        ensures
            r == exists|c: int|
                0 <= c < self.chunks().len() && (#[trigger] self.chunks()[c]).entity_path
                    == entity_path@,
    {
        let n = self.entity_path_registry.len();
        let mut i: usize = 0;
        while i < n
            invariant
                i <= n,
                n == self.entity_path_registry.len(),
                self.wf(),
                forall|j: int| 0 <= j < i ==> #[trigger] self.entity_paths_view()[j] != entity_path@,
            decreases n - i,
        {
            proof {
                assert(self.entity_paths_view()[i as int] == self.entity_path_registry@[i as int]@);
            }
            if self.entity_path_registry[i].eq(entity_path) {
                proof {
                    let w = i as int;
                    assert(exists|c: int|
                        0 <= c < self.chunks().len() && (#[trigger] self.chunks()[c]).entity_path
                            == self.entity_paths_view()[w]);
                }
                return true;
            }
            i = i + 1;
        }
        proof {
            if exists|c: int|
                0 <= c < self.chunks().len() && (#[trigger] self.chunks()[c]).entity_path
                    == entity_path@ {
                let c = choose|c: int|
                    0 <= c < self.chunks().len() && (#[trigger] self.chunks()[c]).entity_path
                        == entity_path@;
                assert(self.entity_paths_view().contains(entity_path@));
                let w = choose|w: int|
                    0 <= w < self.entity_paths_view().len() && self.entity_paths_view()[w]
                        == entity_path@;
            }
        }
        false
    }

    /// Sets or overwrites the store metadata; the latest write wins.
    pub fn set_store_info(&mut self, store_info: SetStoreInfo)
        requires
            old(self).wf(),
        ensures
            final(self).wf(),
            final(self).info_view() == Some(store_info@),
            final(self).chunks() == old(self).chunks(),
            final(self).store_id_view() == old(self).store_id_view(),
            final(self).latest_row_id_spec() == old(self).latest_row_id_spec(),
            final(self).entity_paths_view() == old(self).entity_paths_view(),
            final(self).data_source_view() == old(self).data_source_view(),
            final(self).last_modified_at_spec() == old(self).last_modified_at_spec(),
            final(self).times_view() == old(self).times_view(),
            final(self).tree_view() == old(self).tree_view(),
            final(self).stats_view() == old(self).stats_view(),
            final(self).spec_insert_id() == old(self).spec_insert_id(),
    {
        self.set_store_info = Some(store_info);
        proof {
            assert(self.data_store == old(self).data_store);
            assert(self.chunks() == old(self).chunks());
            assert forall|tl: Seq<char>, t: i64|
                #[trigger] self.times_per_timeline.count_of(tl, t) == seq_sum(
                    self.chunks(),
                    chunk_time_weight(tl, t),
                ) by {
                assert(self.times_per_timeline == old(self).times_per_timeline);
            }
            assert forall|e: Seq<Seq<char>>, c: Seq<char>|
                #[trigger] self.tree.static_of(e, c) == seq_sum(
                    self.chunks(),
                    chunk_comp_static_weight(e, c),
                ) && #[trigger] self.tree.temporal_of(e, c) == seq_sum(
                    self.chunks(),
                    chunk_comp_temporal_weight(e, c),
                ) by {
                assert(self.tree == old(self).tree);
            }
            assert forall|tl: Seq<char>, t: i64|
                #[trigger] self.tree.root().count_of(tl, t) == seq_sum(
                    self.chunks(),
                    chunk_events_weight(tl, t),
                ) by {
                assert(self.tree == old(self).tree);
            }
        }
    }

    /// Key used for ordering recordings: the application id and start time
    /// from the metadata, if set.
    pub fn sort_key(&self) -> (r: Option<(String, u64)>)
        ensures
            match r {
                Some(k) => self.info_view() is Some && self.info_view()->0.info.application_id
                    == k.0@ && self.info_view()->0.info.started == k.1,
                None => self.info_view() is None,
            },
    {
        match &self.set_store_info {
            Some(m) => Some((m.info.application_id.id.clone(), m.info.started)),
            None => None,
        }
    }
}

} // verus!

use crate::times::{all_additions, events_chunks, events_wf};

verus! {

/// The greater of the running latest row id and a freshly inserted maximum.
pub open spec fn combine_latest(l: Option<RowId>, m: RowId) -> RowId {
    match l {
        Option::Some(l) => if l.spec_lt(m) {
            m
        } else {
            l
        },
        Option::None => m,
    }
}

/// When the store accepts an insertion: the rows are strictly sorted, the id
/// is new, and no 64-bit counter would overflow.
pub open spec fn insert_accepted(chunks: Seq<ChunkView>, insert_id: u64, c: ChunkView) -> bool {
    &&& c.rows_sorted_strict()
    &&& !(exists|i: int| 0 <= i < chunks.len() && (#[trigger] chunks[i]).id == c.id)
    &&& insert_id < u64::MAX
    &&& c.size() <= u64::MAX
    &&& seq_sum(chunks, chunk_rows_weight()) + c.rows.len() <= u64::MAX
    &&& seq_sum(chunks, chunk_size_weight()) + c.size() <= u64::MAX
}

/// What a successful chunk insertion does to the database: the chunk is
/// appended, the latest row id is raised by max-comparison, the entity path
/// is registered (idempotently), and nothing else moves.
pub open spec fn add_chunk_ok(pre: EntityDb, post: EntityDb, c: ChunkView) -> bool {
    &&& post.chunks() == pre.chunks().push(c)
    &&& post.latest_row_id_spec() == Some(
        combine_latest(pre.latest_row_id_spec(), rows_max_row_id(c.rows)),
    )
    &&& forall|q: Seq<Seq<char>>|
        post.entity_paths_view().contains(q) <==> pre.entity_paths_view().contains(q) || q
            == c.entity_path
    &&& post.info_view() == pre.info_view()
    &&& post.store_id_view() == pre.store_id_view()
    &&& post.data_source_view() == pre.data_source_view()
}

/// What a rejected mutation leaves behind: everything observable unchanged,
/// the ingestion-latency samples included.
pub open spec fn db_unchanged(pre: EntityDb, post: EntityDb) -> bool {
    &&& post.chunks() == pre.chunks()
    &&& post.latest_row_id_spec() == pre.latest_row_id_spec()
    &&& post.entity_paths_view() == pre.entity_paths_view()
    &&& post.info_view() == pre.info_view()
    &&& post.store_id_view() == pre.store_id_view()
    &&& post.data_source_view() == pre.data_source_view()
    &&& post.stats_view() == pre.stats_view()
}

/// Two databases with equal parts are equally coherent.
proof fn lemma_wf_fields(a: EntityDb, b: EntityDb)
    requires
        a.wf(),
        b.data_store == a.data_store,
        b.entity_path_registry == a.entity_path_registry,
        b.times_per_timeline == a.times_per_timeline,
        b.tree == a.tree,
        b.query_caches == a.query_caches,
        b.stats.wf(),
        b.stats.id_view() == a.stats.id_view(),
        b.latest_row_id == a.latest_row_id,
    ensures
        b.wf(),
{
    assert(b.chunks() == a.chunks());
    assert(b.entity_paths_view() == a.entity_paths_view());
    assert forall|tl: Seq<char>, t: i64|
        #[trigger] b.times_per_timeline.count_of(tl, t) == seq_sum(
            b.chunks(),
            chunk_time_weight(tl, t),
        ) by {
        assert(b.times_per_timeline.count_of(tl, t) == a.times_per_timeline.count_of(tl, t));
    }
    assert forall|e: Seq<Seq<char>>, c: Seq<char>|
        #[trigger] b.tree.static_of(e, c) == seq_sum(b.chunks(), chunk_comp_static_weight(e, c))
            && #[trigger] b.tree.temporal_of(e, c) == seq_sum(
            b.chunks(),
            chunk_comp_temporal_weight(e, c),
        ) by {
        assert(b.tree.static_of(e, c) == a.tree.static_of(e, c));
        assert(b.tree.temporal_of(e, c) == a.tree.temporal_of(e, c));
    }
    assert forall|tl: Seq<char>, t: i64|
        #[trigger] b.tree.root().count_of(tl, t) == seq_sum(
            b.chunks(),
            chunk_events_weight(tl, t),
        ) by {
        assert(b.tree.root() == a.tree.root());
    }
}

impl EntityDb {
    pub closed spec fn spec_insert_id(&self) -> u64 {
        self.data_store.spec_insert_id()
    }

    pub closed spec fn spec_gc_id(&self) -> u64 {
        self.data_store.spec_gc_id()
    }

    /// Inserts one chunk as of wall-clock time `now_nanos`: on success the
    /// store takes it, the entity path is registered, the latest row id is
    /// raised by max-comparison, and the resulting diff is propagated to the
    /// derived views in a fixed order — time index, query cache, entity
    /// index, then ingestion statistics last. On failure no partial state is
    /// committed.
    #[verifier::rlimit(80)]
    pub fn add_chunk_at(&mut self, chunk: &Chunk, now_nanos: u64) -> (r: Result<(), Error>)
        requires
            old(self).wf(),
            chunk@.wf(),
        ensures
            final(self).wf(),
            final(self).last_modified_at_spec() == old(self).last_modified_at_spec(),
            (r is Ok) == insert_accepted(
                old(self).chunks(),
                old(self).spec_insert_id(),
                chunk@,
            ),
            r is Ok ==> add_chunk_ok(*old(self), *final(self), chunk@)
                && final(self).spec_insert_id() == old(self).spec_insert_id() + 1
                && final(self).stats_view().samples_view() == fold_samples(
                old(self).stats_view().samples_view(),
                chunk_samples(chunk@.rows, now_nanos),
            ),
            r is Err ==> db_unchanged(*old(self), *final(self)) && r->Err_0 is ChunkStore && {
                let se = r->Err_0->ChunkStore_0;
                &&& (se == ChunkStoreError::UnsortedRowIds <==> !chunk@.rows_sorted_strict())
                &&& (se == ChunkStoreError::DuplicateChunkId <==> chunk@.rows_sorted_strict()
                    && exists|i: int|
                    0 <= i < old(self).chunks().len() && (#[trigger] old(self).chunks()[i]).id
                        == chunk@.id)
            },
    {
        let ghost pre = *self;
        let events = match self.data_store.insert_chunk(chunk) {
            Ok(ev) => ev,
            Err(e) => {
                proof {
                    lemma_wf_fields(pre, *self);
                }
                return Err(Error::ChunkStore(e));
            },
        };
        let ghost cv = chunk@;
        proof {
            assert(self.chunks() == pre.chunks().push(cv));
            assert(events@.len() == 1);
            assert(all_additions(events@)) by {
                assert(events@[0]@.kind == crate::store::ChunkStoreDiffKind::Addition);
            }
            assert(events_wf(events@)) by {
                assert(events@[0]@.chunk == cv);
            }
            assert(events_chunks(events@) =~= Seq::<ChunkView>::empty().push(cv));
            lemma_seq_sum_push(pre.chunks(), cv, chunk_rows_weight());
            lemma_seq_sum_push(pre.chunks(), cv, chunk_size_weight());
        }
        self.register_entity_path(&chunk.entity_path);
        let ghost mid = *self;
        let hi = match chunk.row_id_range() {
            Some(p) => p.1,
            None => {
                return vstd::pervasive::unreached();
            },
        };
        self.latest_row_id = match self.latest_row_id {
            Some(l) => Some(l.max(hi)),
            None => Some(hi),
        };
        let ghost cs1 = seq![cv];
        proof {
            assert(events_chunks(events@) =~= cs1);
            assert forall|tl: Seq<char>, t: i64| #[trigger] seq_sum(
                cs1,
                chunk_time_weight(tl, t),
            ) == cv.time_count(tl, t) && self.times_per_timeline.count_of(tl, t) + seq_sum(
                cs1,
                chunk_time_weight(tl, t),
            ) <= u64::MAX by {
                lemma_seq_sum_push(Seq::<ChunkView>::empty(), cv, chunk_time_weight(tl, t));
                lemma_sum_time_le_rows(pre.chunks(), tl, t);
                if cv.timelines.contains(tl) {
                    lemma_seq_count_le_len(
                        cv.rows,
                        crate::chunk::row_time_is(index_in(cv.timelines, tl), t),
                    );
                }
                assert(seq_sum(pre.chunks(), chunk_rows_weight()) + cv.rows.len() <= u64::MAX);
            }
        }
        self.times_per_timeline.on_events(&events);
        self.query_caches.on_events(&events);
        proof {
            assert forall|e: Seq<Seq<char>>, c: Seq<char>|
                self.tree.static_of(e, c) + #[trigger] seq_sum(
                    events_chunks(events@),
                    chunk_comp_static_weight(e, c),
                ) <= u64::MAX by {
                lemma_seq_sum_push(Seq::<ChunkView>::empty(), cv, chunk_comp_static_weight(e, c));
                lemma_sum_comp_le_rows(pre.chunks(), e, c);
                if cv.components.contains(c) {
                    lemma_seq_count_le_len(
                        cv.rows,
                        crate::chunk::row_comp_some(index_in(cv.components, c)),
                    );
                }
                assert(seq_sum(pre.chunks(), chunk_rows_weight()) + cv.rows.len() <= u64::MAX);
            }
            assert forall|e: Seq<Seq<char>>, c: Seq<char>|
                self.tree.temporal_of(e, c) + #[trigger] seq_sum(
                    events_chunks(events@),
                    chunk_comp_temporal_weight(e, c),
                ) <= u64::MAX by {
                lemma_seq_sum_push(
                    Seq::<ChunkView>::empty(),
                    cv,
                    chunk_comp_temporal_weight(e, c),
                );
                lemma_sum_comp_le_rows(pre.chunks(), e, c);
                if cv.components.contains(c) {
                    lemma_seq_count_le_len(
                        cv.rows,
                        crate::chunk::row_comp_some(index_in(cv.components, c)),
                    );
                }
                assert(seq_sum(pre.chunks(), chunk_rows_weight()) + cv.rows.len() <= u64::MAX);
            }
            assert forall|tl: Seq<char>, t: i64|
                self.tree.root().count_of(tl, t) + #[trigger] seq_sum(
                    events_chunks(events@),
                    chunk_events_weight(tl, t),
                ) <= u64::MAX by {
                lemma_seq_sum_push(Seq::<ChunkView>::empty(), cv, chunk_events_weight(tl, t));
                lemma_sum_events_le_size(pre.chunks(), tl, t);
                lemma_sum_events_le_size(cs1, tl, t);
                lemma_seq_sum_push(Seq::<ChunkView>::empty(), cv, chunk_size_weight());
                assert(seq_sum(pre.chunks(), chunk_size_weight()) + cv.size() <= u64::MAX);
            }
            assert(self.tree.spec_total_static() + seq_sum(
                events_chunks(events@),
                chunk_static_events_weight(),
            ) <= u64::MAX) by {
                lemma_seq_sum_push(Seq::<ChunkView>::empty(), cv, chunk_static_events_weight());
                lemma_sum_events_le_size(pre.chunks(), Seq::<char>::empty(), 0);
                lemma_sum_events_le_size(cs1, Seq::<char>::empty(), 0);
                lemma_seq_sum_push(Seq::<ChunkView>::empty(), cv, chunk_size_weight());
                assert(seq_sum(pre.chunks(), chunk_size_weight()) + cv.size() <= u64::MAX);
            }
        }
        self.tree.on_events(&events);
        let ghost sid = self.stats.id_view();
        proof {
            assert(sid == pre.stats.id_view());
            assert(events@[0]@.store_id == sid);
            assert(events@.skip(1) =~= Seq::<ChunkStoreEvent>::empty());
            assert(crate::stats::event_samples(events@.skip(1), sid, now_nanos)
                =~= Seq::<(u64, u64)>::empty());
            assert(crate::stats::event_samples(events@, sid, now_nanos) =~= chunk_samples(
                cv.rows,
                now_nanos,
            ));
        }
        self.stats.on_events_at(&events, now_nanos);
        proof {
            let post = *self;
            lemma_seq_sum_push(pre.chunks(), cv, chunk_rows_weight());
            lemma_seq_sum_push(pre.chunks(), cv, chunk_size_weight());
            assert forall|tl: Seq<char>, t: i64|
                #[trigger] post.times_per_timeline.count_of(tl, t) == seq_sum(
                    post.chunks(),
                    chunk_time_weight(tl, t),
                ) by {
                lemma_seq_sum_push(pre.chunks(), cv, chunk_time_weight(tl, t));
                lemma_seq_sum_push(Seq::<ChunkView>::empty(), cv, chunk_time_weight(tl, t));
            }
            assert forall|e: Seq<Seq<char>>, c: Seq<char>|
                #[trigger] post.tree.static_of(e, c) == seq_sum(
                    post.chunks(),
                    chunk_comp_static_weight(e, c),
                ) by {
                lemma_seq_sum_push(pre.chunks(), cv, chunk_comp_static_weight(e, c));
                lemma_seq_sum_push(Seq::<ChunkView>::empty(), cv, chunk_comp_static_weight(e, c));
            }
            assert forall|e: Seq<Seq<char>>, c: Seq<char>|
                #[trigger] post.tree.temporal_of(e, c) == seq_sum(
                    post.chunks(),
                    chunk_comp_temporal_weight(e, c),
                ) by {
                lemma_seq_sum_push(pre.chunks(), cv, chunk_comp_temporal_weight(e, c));
                lemma_seq_sum_push(
                    Seq::<ChunkView>::empty(),
                    cv,
                    chunk_comp_temporal_weight(e, c),
                );
            }
            assert forall|tl: Seq<char>, t: i64|
                #[trigger] post.tree.root().count_of(tl, t) == seq_sum(
                    post.chunks(),
                    chunk_events_weight(tl, t),
                ) by {
                lemma_seq_sum_push(pre.chunks(), cv, chunk_events_weight(tl, t));
                lemma_seq_sum_push(Seq::<ChunkView>::empty(), cv, chunk_events_weight(tl, t));
            }
            assert(post.tree.spec_total_static() == seq_sum(
                post.chunks(),
                chunk_static_events_weight(),
            )) by {
                lemma_seq_sum_push(pre.chunks(), cv, chunk_static_events_weight());
                lemma_seq_sum_push(Seq::<ChunkView>::empty(), cv, chunk_static_events_weight());
            }
            assert(post.query_caches.chunks_view() =~= post.chunks());
            // the registry is exactly the stored paths again
            assert forall|i: int| 0 <= i < post.entity_paths_view().len() implies exists|c: int|
                0 <= c < post.chunks().len() && (#[trigger] post.chunks()[c]).entity_path == (
            #[trigger] post.entity_paths_view()[i]) by {
                let q = post.entity_paths_view()[i];
                assert(post.entity_paths_view().contains(q));
                assert(mid.entity_paths_view().contains(q));
                if pre.entity_paths_view().contains(q) {
                    let w = choose|w: int|
                        0 <= w < pre.entity_paths_view().len() && pre.entity_paths_view()[w] == q;
                    let c = choose|c: int|
                        0 <= c < pre.chunks().len() && (#[trigger] pre.chunks()[c]).entity_path
                            == q;
                    assert(post.chunks()[c].entity_path == q);
                } else {
                    assert(q == cv.entity_path);
                    assert(post.chunks()[post.chunks().len() - 1].entity_path == q);
                }
            }
            assert(post.entity_paths_view() == mid.entity_paths_view());
            assert forall|c: int| 0 <= c < post.chunks().len() implies post.entity_paths_view()
                .contains((#[trigger] post.chunks()[c]).entity_path) by {
                if c < pre.chunks().len() {
                    assert(pre.chunks()[c].entity_path == post.chunks()[c].entity_path);
                    assert(pre.entity_paths_view().contains(pre.chunks()[c].entity_path));
                    assert(mid.entity_paths_view().contains(pre.chunks()[c].entity_path));
                } else {
                    assert(post.chunks()[c].entity_path == cv.entity_path);
                    assert(mid.entity_paths_view().contains(cv.entity_path));
                }
            }
            assert(rows_max_row_id(cv.rows) == hi);
            assert forall|c: int| 0 <= c < post.chunks().len() implies post.latest_row_id is Some
                && !(post.latest_row_id->0).spec_lt(
                rows_max_row_id((#[trigger] post.chunks()[c]).rows),
            ) by {
                if c < pre.chunks().len() {
                    assert(pre.chunks()[c] == post.chunks()[c]);
                }
            }
        }
        Ok(())
    }

    /// Inserts one chunk, measuring ingestion latency against the wall clock:
    /// on success the statistics were fed one sample per row, whatever the
    /// clock read; on failure they were not touched.
    pub fn add_chunk(&mut self, chunk: &Chunk) -> (r: Result<(), Error>)
        requires
            old(self).wf(),
            chunk@.wf(),
        ensures
            final(self).wf(),
            final(self).last_modified_at_spec() == old(self).last_modified_at_spec(),
            (r is Ok) == insert_accepted(
                old(self).chunks(),
                old(self).spec_insert_id(),
                chunk@,
            ),
            r is Ok ==> add_chunk_ok(*old(self), *final(self), chunk@) && exists|now: u64|
                final(self).stats_view().samples_view() == fold_samples(
                    old(self).stats_view().samples_view(),
                    #[trigger] chunk_samples(chunk@.rows, now),
                ),
            r is Err ==> db_unchanged(*old(self), *final(self)) && r->Err_0 is ChunkStore,
    {
        let now = now_nanos_since_epoch();
        let r = self.add_chunk_at(chunk, now);
        proof {
            if r is Ok {
                assert(final(self).stats_view().samples_view() == fold_samples(
                    old(self).stats_view().samples_view(),
                    chunk_samples(chunk@.rows, now),
                ));
            }
        }
        r
    }

    /// Dispatches one message as of wall-clock time `now_nanos`: metadata
    /// messages set the store info, data messages become a chunk (failing on
    /// a malformed payload, sorted by row id if needed) and are inserted —
    /// refreshing the last-modified time and feeding the latency tracker —
    /// and activation commands are a no-op at this layer. The message's
    /// declared store id is not enforced here; a mismatch is a caller error,
    /// not a data-model violation.
    pub fn add_at(&mut self, msg: &LogMsg, now_nanos: u64) -> (r: Result<(), Error>)
        requires
            old(self).wf(),
        ensures
            final(self).wf(),
            msg is SetStoreInfo ==> r is Ok && final(self).info_view() == Some(
                msg->SetStoreInfo_0@,
            ) && final(self).chunks() == old(self).chunks() && final(self).latest_row_id_spec()
                == old(self).latest_row_id_spec() && final(self).entity_paths_view() == old(
                self,
            ).entity_paths_view() && final(self).store_id_view() == old(self).store_id_view()
                && final(self).data_source_view() == old(self).data_source_view()
                && final(self).last_modified_at_spec() == old(self).last_modified_at_spec()
                && final(self).stats_view() == old(self).stats_view(),
            msg is BlueprintActivationCommand ==> r is Ok && *final(self) == *old(self),
            msg is Data ==> final(self).last_modified_at_spec() == now_nanos,
            msg is Data && !msg->Data_1@.wf() ==> r == Result::<(), Error>::Err(
                Error::Chunk(ChunkError::MalformedPayload),
            ) && db_unchanged(*old(self), *final(self)),
            msg is Data && msg->Data_1@.wf() ==> exists|c2: ChunkView|
                #![trigger c2.rows_sorted()]
                {
                    let payload = msg->Data_1@;
                    &&& c2.id == payload.id
                    &&& c2.entity_path == payload.entity_path
                    &&& c2.timelines == payload.timelines
                    &&& c2.components == payload.components
                    &&& c2.rows.to_multiset() == payload.rows.to_multiset()
                    &&& c2.rows.len() == payload.rows.len()
                    &&& c2.rows_sorted()
                    &&& (payload.rows_sorted() ==> c2.rows == payload.rows)
                    &&& c2.wf()
                    &&& (r is Ok) == insert_accepted(
                        old(self).chunks(),
                        old(self).spec_insert_id(),
                        c2,
                    )
                    &&& (r is Ok ==> add_chunk_ok(*old(self), *final(self), c2)
                        && final(self).stats_view().samples_view() == fold_samples(
                        old(self).stats_view().samples_view(),
                        chunk_samples(c2.rows, now_nanos),
                    ))
                    &&& (r is Err ==> db_unchanged(*old(self), *final(self)) && r->Err_0
                        is ChunkStore)
                },
    {
        match msg {
            LogMsg::SetStoreInfo(m) => {
                self.set_store_info(m.clone());
                Ok(())
            },
            LogMsg::Data(_store_id, payload) => {
                let ghost pre = *self;
                self.last_modified_at_nanos = now_nanos;
                proof {
                    lemma_wf_fields(pre, *self);
                }
                if !payload.is_well_formed() {
                    return Err(Error::Chunk(ChunkError::MalformedPayload));
                }
                let mut chunk = payload.clone();
                chunk.sort_if_unsorted();
                let r = self.add_chunk_at(&chunk, now_nanos);
                proof {
                    let c2 = chunk@;
                    assert(c2.wf());
                    assert(c2.rows_sorted());
                }
                r
            },
            LogMsg::BlueprintActivationCommand(_) => {
                // not for this layer to handle
                Ok(())
            },
        }
    }

    /// Dispatches one message at the current wall-clock time; see
    /// [`EntityDb::add_at`].
    pub fn add(&mut self, msg: &LogMsg) -> (r: Result<(), Error>)
        requires
            old(self).wf(),
        ensures
            final(self).wf(),
            msg is SetStoreInfo ==> r is Ok && final(self).info_view() == Some(
                msg->SetStoreInfo_0@,
            ) && final(self).chunks() == old(self).chunks() && final(self).latest_row_id_spec()
                == old(self).latest_row_id_spec() && final(self).entity_paths_view() == old(
                self,
            ).entity_paths_view() && final(self).store_id_view() == old(self).store_id_view()
                && final(self).data_source_view() == old(self).data_source_view()
                && final(self).last_modified_at_spec() == old(self).last_modified_at_spec()
                && final(self).stats_view() == old(self).stats_view(),
            msg is BlueprintActivationCommand ==> r is Ok && *final(self) == *old(self),
            msg is Data && !msg->Data_1@.wf() ==> r == Result::<(), Error>::Err(
                Error::Chunk(ChunkError::MalformedPayload),
            ) && db_unchanged(*old(self), *final(self)),
            msg is Data && msg->Data_1@.wf() ==> exists|c2: ChunkView|
                #![trigger c2.rows_sorted()]
                {
                    let payload = msg->Data_1@;
                    &&& c2.id == payload.id
                    &&& c2.entity_path == payload.entity_path
                    &&& c2.timelines == payload.timelines
                    &&& c2.components == payload.components
                    &&& c2.rows.to_multiset() == payload.rows.to_multiset()
                    &&& c2.rows.len() == payload.rows.len()
                    &&& c2.rows_sorted()
                    &&& (payload.rows_sorted() ==> c2.rows == payload.rows)
                    &&& c2.wf()
                    &&& (r is Ok) == insert_accepted(
                        old(self).chunks(),
                        old(self).spec_insert_id(),
                        c2,
                    )
                    &&& (r is Ok ==> add_chunk_ok(*old(self), *final(self), c2))
                    &&& (r is Err ==> db_unchanged(*old(self), *final(self)) && r->Err_0
                        is ChunkStore)
                },
    {
        let now = now_nanos_since_epoch();
        self.add_at(msg, now)
    }
}

} // verus!

use crate::query::events_ids;
use crate::store::{chunk_id_not_in, lemma_gc_kept_filter_ids, lemma_gc_walk_everything, lemma_gc_walk_membership, lemma_gc_walk_sums};
use crate::times::all_deletions;

verus! {

impl EntityDb {
    /// Propagates the deletion half of a store diff to the time index, the
    /// query cache and the entity index, and prunes registry entries whose
    /// last chunk is gone. The ingestion statistics and the latest row id are
    /// deliberately left alone: they track ingestion, not survival.
    #[verifier::rlimit(60)]
    fn on_store_deletions(&mut self, store_events: &Vec<ChunkStoreEvent>)
        requires
            old(self).times_per_timeline.wf(),
            old(self).tree.wf(),
            all_deletions(store_events@),
            events_wf(store_events@),
            forall|tl: Seq<char>, t: i64|
                seq_sum(events_chunks(store_events@), chunk_time_weight(tl, t)) <= old(
                    self,
                ).times_per_timeline.count_of(tl, t),
            forall|e: Seq<Seq<char>>, c: Seq<char>|
                seq_sum(events_chunks(store_events@), chunk_comp_static_weight(e, c)) <= old(
                    self,
                ).tree.static_of(e, c),
            forall|e: Seq<Seq<char>>, c: Seq<char>|
                seq_sum(events_chunks(store_events@), chunk_comp_temporal_weight(e, c)) <= old(
                    self,
                ).tree.temporal_of(e, c),
            forall|tl: Seq<char>, t: i64|
                seq_sum(events_chunks(store_events@), chunk_events_weight(tl, t)) <= old(
                    self,
                ).tree.root().count_of(tl, t),
            seq_sum(events_chunks(store_events@), chunk_static_events_weight()) <= old(
                self,
            ).tree.spec_total_static(),
            forall|i: int, j: int|
                0 <= i < j < old(self).entity_paths_view().len() ==> path_lt(
                    #[trigger] old(self).entity_paths_view()[i],
                    #[trigger] old(self).entity_paths_view()[j],
                ),
        ensures
            final(self).times_per_timeline.wf(),
            final(self).tree.wf(),
            final(self).data_store == old(self).data_store,
            final(self).latest_row_id == old(self).latest_row_id,
            final(self).set_store_info == old(self).set_store_info,
            final(self).data_source == old(self).data_source,
            final(self).last_modified_at_nanos == old(self).last_modified_at_nanos,
            final(self).stats == old(self).stats,
            forall|tl: Seq<char>, t: i64|
                #[trigger] final(self).times_per_timeline.count_of(tl, t) + seq_sum(
                    events_chunks(store_events@),
                    chunk_time_weight(tl, t),
                ) == old(self).times_per_timeline.count_of(tl, t),
            forall|e: Seq<Seq<char>>, c: Seq<char>|
                #[trigger] final(self).tree.static_of(e, c) + seq_sum(
                    events_chunks(store_events@),
                    chunk_comp_static_weight(e, c),
                ) == old(self).tree.static_of(e, c),
            forall|e: Seq<Seq<char>>, c: Seq<char>|
                #[trigger] final(self).tree.temporal_of(e, c) + seq_sum(
                    events_chunks(store_events@),
                    chunk_comp_temporal_weight(e, c),
                ) == old(self).tree.temporal_of(e, c),
            forall|tl: Seq<char>, t: i64|
                #[trigger] final(self).tree.root().count_of(tl, t) + seq_sum(
                    events_chunks(store_events@),
                    chunk_events_weight(tl, t),
                ) == old(self).tree.root().count_of(tl, t),
            final(self).tree.spec_total_static() + seq_sum(
                events_chunks(store_events@),
                chunk_static_events_weight(),
            ) == old(self).tree.spec_total_static(),
            final(self).query_caches.chunks_view() == seq_filter(
                old(self).query_caches.chunks_view(),
                chunk_id_not_in(events_ids(store_events@)),
            ),
            forall|i: int, j: int|
                0 <= i < j < final(self).entity_paths_view().len() ==> path_lt(
                    #[trigger] final(self).entity_paths_view()[i],
                    #[trigger] final(self).entity_paths_view()[j],
                ),
            forall|q: Seq<Seq<char>>|
                #[trigger] final(self).entity_paths_view().contains(q) <==> (old(
                    self,
                ).entity_paths_view().contains(q) && exists|c: int|
                    0 <= c < final(self).data_store.chunks_view().len()
                        && (#[trigger] final(self).data_store.chunks_view()[c]).entity_path == q),
    {
        let ghost base = *old(self);
        self.times_per_timeline.on_events(store_events);
        self.query_caches.on_events(store_events);
        self.tree.on_events(store_events);
        proof {
            if store_events@.len() == 0 {
                let ecs = events_chunks(store_events@);
                assert(ecs.len() == 0);
                assert(base.query_caches.chunks_view() + ecs =~= base.query_caches.chunks_view());
                assert(events_ids(store_events@).len() == 0);
                assert forall|i: int|
                    0 <= i < base.query_caches.chunks_view().len() implies chunk_id_not_in(
                    events_ids(store_events@),
                )(#[trigger] base.query_caches.chunks_view()[i]) by {}
                crate::sums::lemma_seq_filter_all(
                    base.query_caches.chunks_view(),
                    chunk_id_not_in(events_ids(store_events@)),
                );
            }
        }
        // prune registry entries whose last chunk is gone
        let ghost before = self.entity_paths_view();
        proof {
            assert(before == old(self).entity_paths_view());
        }
        let n = self.entity_path_registry.len();
        let mut kept: Vec<EntityPath> = Vec::new();
        let ghost mut src: Seq<int> = Seq::empty();
        let ghost mut wit: Seq<int> = Seq::empty();
        let mut i: usize = 0;
        while i < n
            invariant
                i <= n,
                n == self.entity_path_registry.len(),
                before == self.entity_paths_view(),
                before == old(self).entity_paths_view(),
                self.data_store == old(self).data_store,
                src.len() == kept@.len(),
                forall|m: int| 0 <= m < src.len() ==> 0 <= #[trigger] src[m] < i,
                forall|m: int| 0 <= m < kept@.len() ==> #[trigger] kept@[m]@ == before[src[m]],
                forall|m1: int, m2: int| 0 <= m1 < m2 < src.len() ==> src[m1] < src[m2],
                wit.len() == kept@.len(),
                forall|m: int|
                    0 <= m < kept@.len() ==> 0 <= #[trigger] wit[m]
                        < self.data_store.chunks_view().len()
                        && self.data_store.chunks_view()[wit[m]].entity_path == kept@[m]@,
                forall|j: int|
                    0 <= j < i && (exists|c: int|
                        0 <= c < self.data_store.chunks_view().len() && (
                        #[trigger] self.data_store.chunks_view()[c]).entity_path == (
                        #[trigger] before[j])) ==> exists|m: int|
                        0 <= m < kept@.len() && #[trigger] kept@[m]@ == before[j],
            decreases n - i,
        {
            proof {
                assert(before[i as int] == self.entity_path_registry@[i as int]@);
            }
            let ghost kept_b = kept@;
            let ghost src_b = src;
            if self.data_store.contains_entity_path(&self.entity_path_registry[i]) {
                kept.push(self.entity_path_registry[i].clone());
                proof {
                    src = src.push(i as int);
                    assert(forall|m: int| 0 <= m < kept_b.len() ==> #[trigger] kept@[m] == kept_b[m]);
                    assert(forall|m: int| 0 <= m < src_b.len() ==> #[trigger] src[m] == src_b[m]);
                    assert(kept@[kept@.len() - 1]@ == before[i as int]);
                    assert forall|m: int| 0 <= m < src.len() implies 0 <= #[trigger] src[m] < i
                        + 1 by {
                        if m < src.len() - 1 {
                            assert(src[m] == src_b[m]);
                        }
                    }
                    assert forall|m1: int, m2: int| 0 <= m1 < m2 < src.len() implies src[m1]
                        < src[m2] by {
                        if m2 == src.len() - 1 {
                            assert(src[m1] == src_b[m1] && src_b[m1] < i as int);
                        } else {
                            assert(src[m1] == src_b[m1] && src[m2] == src_b[m2]);
                        }
                    }
                    let q = before[i as int];
                    let c = choose|c: int|
                        0 <= c < self.data_store.chunks_view().len() && (
                        #[trigger] self.data_store.chunks_view()[c]).entity_path == q;
                    let ghost wit_b = wit;
                    wit = wit.push(c);
                    assert(forall|m: int| 0 <= m < wit_b.len() ==> #[trigger] wit[m] == wit_b[m]);
                    assert(wit[wit.len() - 1] == c);
                    assert forall|m: int| 0 <= m < kept@.len() implies 0 <= #[trigger] wit[m]
                        < self.data_store.chunks_view().len()
                        && self.data_store.chunks_view()[wit[m]].entity_path == kept@[m]@ by {
                        if m < kept@.len() - 1 {
                            assert(wit[m] == wit_b[m] && kept@[m] == kept_b[m]);
                        } else {
                            assert(kept@[m]@ == before[i as int]);
                        }
                    }
                }
            }
            proof {
                assert forall|j: int|
                    0 <= j < i + 1 && (exists|c: int|
                        0 <= c < self.data_store.chunks_view().len() && (
                        #[trigger] self.data_store.chunks_view()[c]).entity_path == (
                        #[trigger] before[j])) implies exists|m: int|
                        0 <= m < kept@.len() && #[trigger] kept@[m]@ == before[j] by {
                    if j < i {
                        let m = choose|m: int| 0 <= m < kept_b.len() && kept_b[m]@ == before[j];
                        assert(kept@[m] == kept_b[m]);
                        assert(kept@[m]@ == before[j]);
                    } else {
                        assert(kept@[kept@.len() - 1]@ == before[j]);
                    }
                }
            }
            i = i + 1;
        }
        let ghost kept_seq = kept@;
        proof {
            let after = kept_seq.map_values(|pp: EntityPath| pp@);
            assert(after.len() == src.len());
            assert(forall|m: int| 0 <= m < after.len() ==> #[trigger] after[m] == before[src[m]]);
            assert forall|a: int, b: int| 0 <= a < b < after.len() implies path_lt(
                #[trigger] after[a],
                #[trigger] after[b],
            ) by {
                assert(src[a] < src[b]);
                assert(0 <= src[a] < before.len() && 0 <= src[b] < before.len());
                assert(path_lt(
                    old(self).entity_paths_view()[src[a]],
                    old(self).entity_paths_view()[src[b]],
                ));
            }
            assert forall|q: Seq<Seq<char>>|
                after.contains(q) <==> (before.contains(q) && exists|c: int|
                    0 <= c < self.data_store.chunks_view().len() && (
                    #[trigger] self.data_store.chunks_view()[c]).entity_path == q) by {
                if after.contains(q) {
                    let m = choose|m: int| 0 <= m < after.len() && after[m] == q;
                    assert(before[src[m]] == q);
                    assert(before.contains(q));
                    assert(kept_seq[m]@ == q);
                    assert(self.data_store.chunks_view()[wit[m]].entity_path == q);
                    assert(exists|c: int|
                        0 <= c < self.data_store.chunks_view().len() && (
                        #[trigger] self.data_store.chunks_view()[c]).entity_path == q);
                }
                if before.contains(q) && (exists|c: int|
                    0 <= c < self.data_store.chunks_view().len() && (
                    #[trigger] self.data_store.chunks_view()[c]).entity_path == q) {
                    let j = choose|j: int| 0 <= j < before.len() && before[j] == q;
                    assert(exists|m: int|
                        0 <= m < kept_seq.len() && #[trigger] kept_seq[m]@ == before[j]);
                    let m = choose|m: int|
                        0 <= m < kept_seq.len() && #[trigger] kept_seq[m]@ == before[j];
                    assert(after[m] == q);
                    assert(after.contains(q));
                }
            }
        }
        self.entity_path_registry = kept;
        proof {
            assert(self.entity_path_registry@ == kept_seq);
            let after = kept_seq.map_values(|pp: EntityPath| pp@);
            assert(self.entity_paths_view() =~= after);
            assert forall|q: Seq<Seq<char>>|
                #[trigger] self.entity_paths_view().contains(q) <==> (before.contains(q)
                    && exists|c: int|
                    0 <= c < self.data_store.chunks_view().len() && (
                    #[trigger] self.data_store.chunks_view()[c]).entity_path == q) by {
                assert(self.entity_paths_view().contains(q) == after.contains(q));
            }
        }
    }

    /// One garbage-collection pass: asks the store to evict what the policy
    /// allows, then propagates only the deletion half of the diff to the time
    /// index, query cache and entity index. The ingestion statistics are not
    /// updated on deletion, and the latest row id is never lowered.
    pub fn gc(&mut self, options: &GarbageCollectionOptions)
        requires
            old(self).wf(),
        ensures
            final(self).wf(),
            final(self).store_id_view() == old(self).store_id_view(),
            final(self).info_view() == old(self).info_view(),
            final(self).data_source_view() == old(self).data_source_view(),
            final(self).latest_row_id_spec() == old(self).latest_row_id_spec(),
            final(self).last_modified_at_spec() == old(self).last_modified_at_spec(),
            final(self).stats_view() == old(self).stats_view(),
            ({
                let all = old(self).chunks();
                let np = options.protect_latest as nat;
                let stop = gc_stop(options.target, seq_sum(all, chunk_size_weight()));
                &&& final(self).chunks() == gc_kept(all, all, np, 0, stop)
                &&& forall|i: int|
                    0 <= i < gc_dropped(all, all, np, 0, stop).len() ==> !chunk_protected(
                        all,
                        #[trigger] gc_dropped(all, all, np, 0, stop)[i],
                        np,
                    )
                &&& options.target is Everything ==> final(self).chunks() == seq_filter(
                    all,
                    protected_in(all, np),
                )
            }),
    {
        let ghost pre = *self;
        let ghost all = pre.chunks();
        let ghost np = options.protect_latest as nat;
        let ghost stop = gc_stop(options.target, seq_sum(all, chunk_size_weight()));
        let (events, _stats_diff) = self.data_store.gc(options);
        let ghost dropped = gc_dropped(all, all, np, 0, stop);
        proof {
            crate::store::lemma_store_wf_facts(&pre.data_store);
            lemma_gc_walk_membership(all, all, np, 0, stop);
            assert(all_deletions(events@)) by {
                assert(forall|i: int|
                    0 <= i < events@.len() ==> (#[trigger] events@[i])@.kind
                        == crate::store::ChunkStoreDiffKind::Deletion);
            }
            assert(events_wf(events@)) by {
                assert forall|i: int| 0 <= i < events@.len() implies (#[trigger] events@[i])@.chunk.wf() by {
                    assert(events@[i]@.chunk == dropped[i]);
                    assert(all.contains(dropped[i]));
                    let w = choose|w: int| 0 <= w < all.len() && all[w] == dropped[i];
                }
            }
            assert(events_chunks(events@) =~= dropped);
            assert forall|tl: Seq<char>, t: i64| #[trigger] seq_sum(
                events_chunks(events@),
                chunk_time_weight(tl, t),
            ) <= pre.times_per_timeline.count_of(tl, t) by {
                lemma_gc_walk_sums(all, all, np, 0, stop, chunk_time_weight(tl, t));
            }
            assert forall|e: Seq<Seq<char>>, c: Seq<char>| #[trigger] seq_sum(
                events_chunks(events@),
                chunk_comp_static_weight(e, c),
            ) <= pre.tree.static_of(e, c) by {
                lemma_gc_walk_sums(all, all, np, 0, stop, chunk_comp_static_weight(e, c));
            }
            assert forall|e: Seq<Seq<char>>, c: Seq<char>| #[trigger] seq_sum(
                events_chunks(events@),
                chunk_comp_temporal_weight(e, c),
            ) <= pre.tree.temporal_of(e, c) by {
                lemma_gc_walk_sums(all, all, np, 0, stop, chunk_comp_temporal_weight(e, c));
            }
            assert forall|tl: Seq<char>, t: i64| #[trigger] seq_sum(
                events_chunks(events@),
                chunk_events_weight(tl, t),
            ) <= pre.tree.root().count_of(tl, t) by {
                lemma_gc_walk_sums(all, all, np, 0, stop, chunk_events_weight(tl, t));
            }
            assert(seq_sum(events_chunks(events@), chunk_static_events_weight())
                <= pre.tree.spec_total_static()) by {
                lemma_gc_walk_sums(all, all, np, 0, stop, chunk_static_events_weight());
            }
        }
        self.on_store_deletions(&events);
        proof {
            let post = *self;
            let kept = gc_kept(all, all, np, 0, stop);
            assert forall|tl: Seq<char>, t: i64|
                #[trigger] post.times_per_timeline.count_of(tl, t) == seq_sum(
                    post.chunks(),
                    chunk_time_weight(tl, t),
                ) by {
                lemma_gc_walk_sums(all, all, np, 0, stop, chunk_time_weight(tl, t));
            }
            assert forall|e: Seq<Seq<char>>, c: Seq<char>|
                #[trigger] post.tree.static_of(e, c) == seq_sum(
                    post.chunks(),
                    chunk_comp_static_weight(e, c),
                ) by {
                lemma_gc_walk_sums(all, all, np, 0, stop, chunk_comp_static_weight(e, c));
            }
            assert forall|e: Seq<Seq<char>>, c: Seq<char>|
                #[trigger] post.tree.temporal_of(e, c) == seq_sum(
                    post.chunks(),
                    chunk_comp_temporal_weight(e, c),
                ) by {
                lemma_gc_walk_sums(all, all, np, 0, stop, chunk_comp_temporal_weight(e, c));
            }
            assert forall|tl: Seq<char>, t: i64|
                #[trigger] post.tree.root().count_of(tl, t) == seq_sum(
                    post.chunks(),
                    chunk_events_weight(tl, t),
                ) by {
                lemma_gc_walk_sums(all, all, np, 0, stop, chunk_events_weight(tl, t));
            }
            assert(post.tree.spec_total_static() == seq_sum(
                post.chunks(),
                chunk_static_events_weight(),
            )) by {
                lemma_gc_walk_sums(all, all, np, 0, stop, chunk_static_events_weight());
            }
            assert(post.query_caches.chunks_view() == post.chunks()) by {
                lemma_gc_kept_filter_ids(all, all, np, 0, stop);
                assert(events_ids(events@) =~= crate::store::chunk_ids(dropped));
            }
            assert forall|i: int|
                0 <= i < post.entity_paths_view().len() implies exists|c: int|
                0 <= c < post.chunks().len() && (#[trigger] post.chunks()[c]).entity_path == (
            #[trigger] post.entity_paths_view()[i]) by {
                let q = post.entity_paths_view()[i];
                assert(post.entity_paths_view().contains(q));
            }
            assert forall|c: int| 0 <= c < post.chunks().len() implies post.latest_row_id is Some
                && !(post.latest_row_id->0).spec_lt(
                rows_max_row_id((#[trigger] post.chunks()[c]).rows),
            ) by {
                assert(all.contains(kept[c]));
                let w = choose|w: int| 0 <= w < all.len() && all[w] == kept[c];
            }
            assert forall|c: int| 0 <= c < post.chunks().len() implies post.entity_paths_view()
                .contains((#[trigger] post.chunks()[c]).entity_path) by {
                let q = post.chunks()[c].entity_path;
                assert(all.contains(kept[c]));
                let w = choose|w: int| 0 <= w < all.len() && all[w] == kept[c];
                assert(pre.entity_paths_view().contains(q));
                assert(exists|cc: int|
                    0 <= cc < post.data_store.chunks_view().len() && (#[trigger] post.data_store.chunks_view()[cc]).entity_path
                        == q) by {
                    assert(post.data_store.chunks_view()[c].entity_path == q);
                }
            }
            if options.target is Everything {
                lemma_gc_walk_everything(all, all, np, 0, seq_sum(all, chunk_size_weight()));
            }
        }
    }

    /// Drops everything except the newest chunk of every entity on each of
    /// its timelines (and all static chunks), under the default time budget.
    pub fn gc_everything_but_the_latest_row_on_non_default_timelines(&mut self)
        requires
            old(self).wf(),
        ensures
            final(self).wf(),
            final(self).store_id_view() == old(self).store_id_view(),
            final(self).info_view() == old(self).info_view(),
            final(self).data_source_view() == old(self).data_source_view(),
            final(self).latest_row_id_spec() == old(self).latest_row_id_spec(),
            final(self).chunks() == seq_filter(
                old(self).chunks(),
                protected_in(old(self).chunks(), 1),
            ),
    {
        let options = GarbageCollectionOptions {
            target: GarbageCollectionTarget::Everything,
            protect_latest: 1,
            time_budget_nanos: DEFAULT_GC_TIME_BUDGET_NANOS,
        };
        self.gc(&options);
    }

    /// Frees memory by forgetting the oldest unprotected chunks until at
    /// least `numerator / denominator` of the stored bytes are gone, still
    /// protecting the newest chunk per entity and timeline.
    pub fn purge_fraction_of_ram(&mut self, numerator: u64, denominator: u64)
        requires
            old(self).wf(),
            denominator > 0,
            numerator <= denominator,
        ensures
            final(self).wf(),
            final(self).store_id_view() == old(self).store_id_view(),
            final(self).info_view() == old(self).info_view(),
            final(self).latest_row_id_spec() == old(self).latest_row_id_spec(),
            final(self).chunks() == gc_kept(
                old(self).chunks(),
                old(self).chunks(),
                1,
                0,
                gc_stop(
                    GarbageCollectionTarget::DropAtLeastFraction { numerator, denominator },
                    seq_sum(old(self).chunks(), chunk_size_weight()),
                ),
            ),
    {
        let options = GarbageCollectionOptions {
            target: GarbageCollectionTarget::DropAtLeastFraction { numerator, denominator },
            protect_latest: 1,
            time_budget_nanos: DEFAULT_GC_TIME_BUDGET_NANOS,
        };
        self.gc(&options);
    }
}

} // verus!

use crate::store::lemma_store_wf_facts;
use crate::sums::{lemma_seq_filter_push, lemma_seq_sum_take_le, lemma_seq_sum_take_skip};

verus! {

/// The view of a replay window selection.
pub open spec fn selection_view(sel: Option<(Timeline, ResolvedTimeRange)>) -> Option<
    (Seq<char>, ResolvedTimeRange),
> {
    match sel {
        Option::Some((tl, range)) => Option::Some((tl@, range)),
        Option::None => Option::None,
    }
}

/// Where the data messages of a replay stream start: right after the
/// store-info message, when there is one.
pub open spec fn export_base(info: Option<SetStoreInfoView>) -> int {
    if info is Some {
        1
    } else {
        0
    }
}

/// The chunks a replay stream carries: those overlapping the window, in
/// store order.
pub open spec fn exported_chunks(
    chunks: Seq<ChunkView>,
    sel: Option<(Seq<char>, ResolvedTimeRange)>,
) -> Seq<ChunkView> {
    seq_filter(chunks, in_selection(sel))
}

impl EntityDb {
    /// Exports the database as an ordered replay stream: the store-info
    /// message first (if set), then one data message per retained chunk in
    /// store order — filtered, when a window is given, by coarse
    /// chunk-level overlap against it — and, only for a blueprint store, one
    /// trailing activation command. The order is a correctness requirement:
    /// a consumer must see metadata before data and activation after data.
    pub fn to_messages(&self, time_selection: &Option<(Timeline, ResolvedTimeRange)>) -> (r: Vec<
        LogMsg,
    >)
        requires
            self.wf(),
        ensures
            ({
                let kept = exported_chunks(self.chunks(), selection_view(*time_selection));
                let base = export_base(self.info_view());
                let tail_len: int = if self.store_id_view().kind == StoreKind::Blueprint {
                    1
                } else {
                    0
                };
                &&& r@.len() == base + kept.len() + tail_len
                &&& (self.info_view() is Some ==> r@[0] is SetStoreInfo && r@[0]->SetStoreInfo_0@
                    == self.info_view()->0)
                &&& forall|i: int|
                    base <= i < base + kept.len() ==> (#[trigger] r@[i]) is Data && r@[i]->Data_0@
                        == self.store_id_view() && r@[i]->Data_1@ == kept[i - base]
                &&& (self.store_id_view().kind == StoreKind::Blueprint ==> r@[r@.len() - 1]
                    is BlueprintActivationCommand && r@[r@.len()
                    - 1]->BlueprintActivationCommand_0.blueprint_id@ == self.store_id_view()
                    && r@[r@.len() - 1]->BlueprintActivationCommand_0.make_active && r@[r@.len()
                    - 1]->BlueprintActivationCommand_0.make_default)
            }),
    {
        let ghost selv = selection_view(*time_selection);
        let ghost chunks = self.chunks();
        let ghost p = in_selection(selv);
        let ghost base: int = if self.info_view() is Some {
            1int
        } else {
            0int
        };
        proof {
            lemma_store_wf_facts(&self.data_store);
        }
        let mut out: Vec<LogMsg> = Vec::new();
        match &self.set_store_info {
            Some(m) => {
                out.push(LogMsg::SetStoreInfo(m.clone()));
            },
            None => {},
        }
        let stored = self.data_store.iter_chunks();
        let n = stored.len();
        let mut i: usize = 0;
        proof {
            assert(chunks.take(0) =~= Seq::<ChunkView>::empty());
            assert(out@.len() == base);
        }
        while i < n
            invariant
                i <= n,
                n == stored@.len(),
                stored@.map_values(|c: Chunk| c@) == chunks,
                chunks == self.chunks(),
                selv == selection_view(*time_selection),
                p == in_selection(selv),
                self.wf(),
                forall|c: int| 0 <= c < chunks.len() ==> (#[trigger] chunks[c]).wf(),
                base == if self.info_view() is Some {
                    1int
                } else {
                    0int
                },
                out@.len() == base + seq_filter(chunks.take(i as int), p).len(),
                self.info_view() is Some ==> out@[0] is SetStoreInfo && out@[0]->SetStoreInfo_0@
                    == self.info_view()->0,
                forall|m: int|
                    0 <= m < seq_filter(chunks.take(i as int), p).len() ==> (#[trigger] out@[base
                        + m]) is Data && out@[base + m]->Data_0@ == self.store_id_view() && out@[
                    base + m]->Data_1@ == seq_filter(chunks.take(i as int), p)[m],
            decreases n - i,
        {
            proof {
                assert(chunks[i as int] == stored@[i as int]@);
                assert(chunks.take(i as int + 1) =~= chunks.take(i as int).push(chunks[i as int]));
                lemma_seq_filter_push(chunks.take(i as int), chunks[i as int], p);
            }
            let keep = match time_selection {
                None => true,
                Some((tl, range)) => {
                    let k = match stored[i].time_range_on(tl) {
                        Some(rng) => rng.min <= range.max && range.min <= rng.max,
                        None => false,
                    };
                    proof {
                        assert(stored@[i as int]@ == chunks[i as int]);
                        assert(*time_selection == Option::Some((*tl, *range)));
                        assert(selv == Option::Some((tl@, *range)));
                        assert(k == chunk_in_selection(chunks[i as int], selv));
                    }
                    k
                },
            };
            proof {
                assert(keep == chunk_in_selection(chunks[i as int], selv));
            }
            let ghost out_b = out@;
            if keep {
                out.push(LogMsg::Data(self.data_store.id().clone(), stored[i].clone()));
                proof {
                    let kf = seq_filter(chunks.take(i as int + 1), p);
                    assert(out@.len() == base + kf.len());
                    assert forall|m: int| 0 <= m < kf.len() implies (#[trigger] out@[base + m])
                        is Data && out@[base + m]->Data_0@ == self.store_id_view() && out@[base
                        + m]->Data_1@ == kf[m] by {
                        if m < kf.len() - 1 {
                            assert(out@[base + m] == out_b[base + m]);
                            assert(kf[m] == seq_filter(chunks.take(i as int), p)[m]);
                        } else {
                            assert(out@[base + m] == out@[out@.len() - 1]);
                            assert(kf[m] == chunks[i as int]);
                        }
                    }
                }
            }
            i = i + 1;
        }
        proof {
            assert(chunks.take(n as int) =~= chunks);
        }
        if self.data_store.id().kind == StoreKind::Blueprint {
            let ghost out_b = out@;
            let cmd = BlueprintActivationCommand::make_active(self.data_store.id().clone());
            out.push(LogMsg::BlueprintActivationCommand(cmd));
            proof {
                let kept = seq_filter(chunks, p);
                assert(forall|m: int|
                    0 <= m < kept.len() ==> #[trigger] out@[base + m] == out_b[base + m]);
                if self.info_view() is Some {
                    assert(out@[0] == out_b[0]);
                }
            }
        }
        proof {
            let kept = exported_chunks(self.chunks(), selv);
            assert(kept == seq_filter(chunks, p));
            assert(base == export_base(self.info_view()));
            assert forall|i: int| base <= i < base + kept.len() implies (#[trigger] out@[i])
                is Data && out@[i]->Data_0@ == self.store_id_view() && out@[i]->Data_1@ == kept[i
                - base] by {
                let m = i - base;
                assert(out@[base + m] is Data && out@[base + m]->Data_0@ == self.store_id_view()
                    && out@[base + m]->Data_1@ == kept[m]);
            }
        }
        out
    }

    /// Builds a brand-new, wholly independent database under `new_id`: the
    /// terminal scalars (last-modified time, latest row id) are copied, the
    /// metadata is rewritten to carry the new id and a "cloned from"
    /// back-reference, every chunk is replayed through the ordinary insertion
    /// path so all derived indices are rebuilt independently, and the data
    /// source is deliberately dropped.
    pub fn clone_with_new_id(&self, new_id: StoreId) -> (r: Result<EntityDb, Error>)
        requires
            self.wf(),
        ensures
            r is Ok,
            ({
                let db = r->Ok_0;
                &&& db.wf()
                &&& db.chunks() == self.chunks()
                &&& db.store_id_view() == new_id@
                &&& db.data_source_view() is None
                &&& db.latest_row_id_spec() == self.latest_row_id_spec()
                &&& db.last_modified_at_spec() == self.last_modified_at_spec()
                &&& (self.info_view() is Some ==> db.info_view() is Some
                    && db.info_view()->0.info.store_id == new_id@
                    && db.info_view()->0.info.cloned_from == Some(self.store_id_view())
                    && db.info_view()->0.info.application_id
                    == self.info_view()->0.info.application_id && db.info_view()->0.info.started
                    == self.info_view()->0.info.started)
                &&& (self.info_view() is None ==> db.info_view() is None)
            }),
    {
        let now = now_nanos_since_epoch();
        let mut new_db = Self::new(new_id.clone());
        let ghost fresh = new_db;
        new_db.last_modified_at_nanos = self.last_modified_at_nanos;
        new_db.latest_row_id = self.latest_row_id;
        proof {
            assert(new_db.chunks().len() == 0);
            assert(new_db.wf()) by {
                lemma_wf_fields(fresh, EntityDb { latest_row_id: fresh.latest_row_id, ..new_db });
                assert forall|c: int|
                    0 <= c < new_db.chunks().len() implies new_db.latest_row_id is Some && !(
                    new_db.latest_row_id->0).spec_lt(
                    rows_max_row_id((#[trigger] new_db.chunks()[c]).rows),
                ) by {}
            }
        }
        match &self.set_store_info {
            Some(m) => {
                let info = StoreInfo {
                    application_id: m.info.application_id.clone(),
                    store_id: new_id,
                    cloned_from: Some(self.data_store.id().clone()),
                    started: m.info.started,
                };
                new_db.set_store_info(
                    SetStoreInfo { row_id: RowId { nanos_since_epoch: now, inc: 0 }, info },
                );
            },
            None => {},
        }
        proof {
            lemma_store_wf_facts(&self.data_store);
            lemma_seq_sum_min_one(self.chunks(), chunk_rows_weight());
        }
        let stored = self.data_store.iter_chunks();
        let n = stored.len();
        let mut i: usize = 0;
        proof {
            assert(self.chunks().take(0) =~= Seq::<ChunkView>::empty());
            assert(new_db.chunks() =~= self.chunks().take(0));
        }
        while i < n
            invariant
                i <= n,
                n == stored@.len(),
                stored@.map_values(|c: Chunk| c@) == self.chunks(),
                self.wf(),
                new_db.wf(),
                new_db.chunks() == self.chunks().take(i as int),
                new_db.spec_insert_id() == i,
                new_db.latest_row_id == self.latest_row_id,
                new_db.last_modified_at_nanos == self.last_modified_at_nanos,
                new_db.data_source_view() is None,
                new_db.store_id_view() == fresh.store_id_view(),
                new_db.info_view() == final_info_of(*self, fresh.store_id_view(), now),
                seq_sum(self.chunks(), chunk_rows_weight()) <= u64::MAX,
                seq_sum(self.chunks(), chunk_size_weight()) <= u64::MAX,
                self.chunks().len() <= seq_sum(self.chunks(), chunk_rows_weight()),
                forall|c: int|
                    0 <= c < self.chunks().len() ==> (#[trigger] self.chunks()[c]).wf() && (
                    #[trigger] self.chunks()[c]).rows_sorted_strict(),
                forall|a: int, b: int|
                    0 <= a < b < self.chunks().len() ==> (#[trigger] self.chunks()[a]).id != (
                    #[trigger] self.chunks()[b]).id,
            decreases n - i,
        {
            let ghost cs = self.chunks();
            proof {
                assert(cs[i as int] == stored@[i as int]@);
                assert(cs.take(i as int + 1) =~= cs.take(i as int).push(cs[i as int]));
                // the insertion below is accepted
                lemma_seq_sum_take_le(cs, i as int, chunk_rows_weight());
                lemma_seq_sum_take_le(cs, i as int, chunk_size_weight());
                lemma_seq_sum_take_skip(cs, i as int, chunk_rows_weight());
                crate::sums::lemma_seq_sum_skip_step(cs, i as int, chunk_rows_weight());
                lemma_seq_sum_take_skip(cs, i as int, chunk_size_weight());
                crate::sums::lemma_seq_sum_skip_step(cs, i as int, chunk_size_weight());
                assert(!(exists|w: int|
                    0 <= w < new_db.chunks().len() && (#[trigger] new_db.chunks()[w]).id == cs[
                    i as int].id)) by {
                    if exists|w: int|
                        0 <= w < new_db.chunks().len() && (#[trigger] new_db.chunks()[w]).id == cs[
                        i as int].id {
                        let w = choose|w: int|
                            0 <= w < new_db.chunks().len() && (#[trigger] new_db.chunks()[w]).id
                                == cs[i as int].id;
                        assert(cs.take(i as int)[w] == cs[w]);
                        assert(cs[w].id != cs[i as int].id);
                    }
                }
                assert(insert_accepted(new_db.chunks(), new_db.spec_insert_id(), cs[i as int]));
            }
            let res = new_db.add_chunk_at(&stored[i], now);
            proof {
                assert(res is Ok);
                assert(new_db.chunks() == cs.take(i as int + 1));
                // the latest row id is already at or above this chunk's rows
                assert(new_db.latest_row_id == self.latest_row_id) by {
                    assert(self.latest_row_id is Some && !(self.latest_row_id->0).spec_lt(
                        rows_max_row_id(cs[i as int].rows),
                    )) by {
                        assert(0 <= i && i < self.chunks().len());
                    }
                }
            }
            i = i + 1;
        }
        proof {
            assert(self.chunks().take(n as int) =~= self.chunks());
        }
        Ok(new_db)
    }
}

/// What the clone's metadata looks like: the original's, rewritten to the
/// new id with a back-reference, or absent when the original had none.
pub open spec fn final_info_of(src: EntityDb, new_sid: StoreIdView, now: u64) -> Option<
    SetStoreInfoView,
> {
    match src.info_view() {
        Option::Some(m) => Option::Some(
            SetStoreInfoView {
                row_id: RowId { nanos_since_epoch: now, inc: 0 },
                info: StoreInfoView {
                    application_id: m.info.application_id,
                    store_id: new_sid,
                    cloned_from: Option::Some(src.store_id_view()),
                    started: m.info.started,
                },
            },
        ),
        Option::None => Option::None,
    }
}

} // verus!

verus! {

/// What the database's coherence guarantees of its registry, for callers
/// that cannot see the invariant itself: it is strictly sorted and holds
/// exactly the stored entity paths.
pub proof fn lemma_db_wf_registry(db: &EntityDb)
    requires
        db.wf(),
    ensures
        forall|i: int, j: int|
            0 <= i < j < db.entity_paths_view().len() ==> path_lt(
                #[trigger] db.entity_paths_view()[i],
                #[trigger] db.entity_paths_view()[j],
            ),
        forall|q: Seq<Seq<char>>|
            #[trigger] db.entity_paths_view().contains(q) <==> exists|c: int|
                0 <= c < db.chunks().len() && (#[trigger] db.chunks()[c]).entity_path == q,
{
    assert forall|q: Seq<Seq<char>>|
        #[trigger] db.entity_paths_view().contains(q) <==> exists|c: int|
            0 <= c < db.chunks().len() && (#[trigger] db.chunks()[c]).entity_path == q by {
        if db.entity_paths_view().contains(q) {
            let w = choose|w: int|
                0 <= w < db.entity_paths_view().len() && db.entity_paths_view()[w] == q;
        }
        if exists|c: int|
            0 <= c < db.chunks().len() && (#[trigger] db.chunks()[c]).entity_path == q {
            let c = choose|c: int|
                0 <= c < db.chunks().len() && (#[trigger] db.chunks()[c]).entity_path == q;
        }
    }
}

} // verus!

use crate::query::{cand_at, cand_key, key_better, LatestAtQuery, LatestAtResult};

verus! {

impl EntityDb {
    /// The latest value of one component of one entity, under latest-at
    /// semantics: static data wins, then the newest time at or before the
    /// query, then the greatest row id. Best-effort: absent data is `None`,
    /// never an error.
    pub fn latest_at_component(
        &self,
        entity_path: &EntityPath,
        component: &String,
        query: &LatestAtQuery,
    ) -> (r: Option<LatestAtResult>)
        requires
            self.wf(),
        ensures
            ({
                let chunks = self.chunks();
                let e = entity_path@;
                let comp = component@;
                let tl = query.timeline@;
                let at = query.at;
                match r {
                    Some(res) => (exists|ci: int, ri: int|
                        cand_at(chunks, e, comp, tl, at, ci, ri) == Some(
                            (res.is_static, res.time, res.row_id, res.value@),
                        )) && forall|ci: int, ri: int|
                        (#[trigger] cand_at(chunks, e, comp, tl, at, ci, ri)) is Some
                            ==> !key_better(
                            cand_key(cand_at(chunks, e, comp, tl, at, ci, ri)->0),
                            (res.is_static, res.time, res.row_id),
                        ),
                    None => forall|ci: int, ri: int|
                        (#[trigger] cand_at(chunks, e, comp, tl, at, ci, ri)) is None,
                }
            }),
    {
        proof {
            lemma_store_wf_facts(&self.data_store);
        }
        self.query_caches.latest_at_component(entity_path, component, query)
    }

    /// The latest value of one component at the queried entity path or, when
    /// it has none, at the closest ancestor that does: no strictly longer
    /// prefix of the queried path holds any candidate, and the returned hit
    /// is the best candidate at the returned path.
    pub fn latest_at_component_at_closest_ancestor(
        &self,
        entity_path: &EntityPath,
        component: &String,
        query: &LatestAtQuery,
    ) -> (r: Option<(EntityPath, LatestAtResult)>)
        requires
            self.wf(),
        ensures
            match r {
                Some(pr) => {
                    let res = pr.1;
                    &&& pr.0.spec_is_ancestor_or_equal(*entity_path)
                    &&& exists|ci: int, ri: int|
                        #[trigger] cand_at(
                            self.chunks(),
                            pr.0@,
                            component@,
                            query.timeline@,
                            query.at,
                            ci,
                            ri,
                        ) == Some((res.is_static, res.time, res.row_id, res.value@))
                    &&& forall|ci: int, ri: int|
                        (#[trigger] cand_at(
                            self.chunks(),
                            pr.0@,
                            component@,
                            query.timeline@,
                            query.at,
                            ci,
                            ri,
                        )) is Some ==> !key_better(
                            cand_key(
                                cand_at(
                                    self.chunks(),
                                    pr.0@,
                                    component@,
                                    query.timeline@,
                                    query.at,
                                    ci,
                                    ri,
                                )->0,
                            ),
                            (res.is_static, res.time, res.row_id),
                        )
                    &&& forall|k: int, ci: int, ri: int|
                        pr.0@.len() < k <= entity_path@.len() ==> (#[trigger] cand_at(
                            self.chunks(),
                            entity_path@.subrange(0, k),
                            component@,
                            query.timeline@,
                            query.at,
                            ci,
                            ri,
                        )) is None
                },
                None => forall|k: int, ci: int, ri: int|
                    0 <= k <= entity_path@.len() ==> (#[trigger] cand_at(
                        self.chunks(),
                        entity_path@.subrange(0, k),
                        component@,
                        query.timeline@,
                        query.at,
                        ci,
                        ri,
                    )) is None,
            },
    {
        let mut at_path = entity_path.clone();
        proof {
            assert(at_path@ =~= entity_path@.subrange(0, at_path@.len() as int));
        }
        loop
            invariant
                self.wf(),
                at_path.spec_is_ancestor_or_equal(*entity_path),
                forall|k: int, ci: int, ri: int|
                    at_path@.len() < k <= entity_path@.len() ==> (#[trigger] cand_at(
                        self.chunks(),
                        entity_path@.subrange(0, k),
                        component@,
                        query.timeline@,
                        query.at,
                        ci,
                        ri,
                    )) is None,
            decreases at_path@.len(),
        {
            match self.latest_at_component(&at_path, component, query) {
                Some(res) => {
                    proof {
                        let (ci, ri) = choose|ci: int, ri: int|
                            cand_at(
                                self.chunks(),
                                at_path@,
                                component@,
                                query.timeline@,
                                query.at,
                                ci,
                                ri,
                            ) == Some((res.is_static, res.time, res.row_id, res.value@));
                        assert(cand_at(
                            self.chunks(),
                            at_path@,
                            component@,
                            query.timeline@,
                            query.at,
                            ci,
                            ri,
                        ) is Some);
                    }
                    return Some((at_path, res));
                },
                None => {
                    proof {
                        assert(at_path@ == entity_path@.subrange(0, at_path@.len() as int));
                        assert forall|k: int, ci: int, ri: int|
                            at_path@.len() - 1 < k <= entity_path@.len() implies (
                        #[trigger] cand_at(
                            self.chunks(),
                            entity_path@.subrange(0, k),
                            component@,
                            query.timeline@,
                            query.at,
                            ci,
                            ri,
                        )) is None by {
                            if k == at_path@.len() {
                                assert(entity_path@.subrange(0, k) == at_path@);
                            }
                        }
                    }
                    match at_path.parent() {
                        Some(parent) => {
                            proof {
                                assert(parent@ == at_path@.take(at_path@.len() - 1));
                                assert(parent@ =~= entity_path@.subrange(0, parent@.len() as int));
                            }
                            at_path = parent;
                        },
                        None => {
                            proof {
                                assert(at_path@.len() == 0);
                            }
                            return None;
                        },
                    }
                },
            }
        }
    }
}

} // verus!
