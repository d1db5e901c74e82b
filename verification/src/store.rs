//! The chunk store: an append-oriented store of immutable chunks.
//!
//! Insertion and garbage collection each return a diff of changes — a list
//! of [`ChunkStoreEvent`]s — which is the sole input to every derived index.

use vstd::prelude::*;

use crate::chunk::{Chunk, ChunkView};
use crate::ids::{StoreId, StoreIdView};
use crate::sums::{
    lemma_seq_sum_push, lemma_seq_sum_take_skip, seq_count, seq_filter, seq_sum,
};

verus! {

/// Whether a store event describes chunks entering or leaving the store.
#[derive(Clone, Copy, PartialEq, Eq, Structural, Debug)]
pub enum ChunkStoreDiffKind {
    Addition,
    Deletion,
}

/// An immutable description of one chunk added to or removed from the store
/// by one mutation; the unit of propagation to every derived index.
#[derive(Debug)]
pub struct ChunkStoreEvent {
    pub store_id: StoreId,
    pub kind: ChunkStoreDiffKind,
    pub chunk: Chunk,
}

/// Mathematical value of a [`ChunkStoreEvent`].
pub ghost struct ChunkStoreEventView {
    pub store_id: StoreIdView,
    pub kind: ChunkStoreDiffKind,
    pub chunk: ChunkView,
}

impl View for ChunkStoreEvent {
    type V = ChunkStoreEventView;

    open spec fn view(&self) -> ChunkStoreEventView {
        ChunkStoreEventView { store_id: self.store_id@, kind: self.kind, chunk: self.chunk@ }
    }
}

impl Clone for ChunkStoreEvent {
    fn clone(&self) -> (r: Self)
        ensures
            r@ == self@,
    {
        ChunkStoreEvent {
            store_id: self.store_id.clone(),
            kind: self.kind,
            chunk: self.chunk.clone(),
        }
    }
}

/// Why the store rejected an insertion. No partial mutation happens on any
/// of these.
#[derive(Clone, Copy, PartialEq, Eq, Structural, Debug)]
pub enum ChunkStoreError {
    /// The chunk's rows are not in strictly increasing row-id order.
    UnsortedRowIds,
    /// A chunk with the same id is already in the store.
    DuplicateChunkId,
    /// Accepting the chunk would push a store-wide byte or row counter past
    /// what 64 bits can hold.
    CapacityExceeded,
}

/// A monotonically increasing token that changes on every mutation, usable by
/// callers to detect staleness without re-scanning the store.
#[derive(Clone, Copy, PartialEq, Eq, Structural, Debug)]
pub struct ChunkStoreGeneration {
    pub insert_id: u64,
    pub gc_id: u64,
}

/// Aggregate size of (a part of) the store's content.
#[derive(Clone, Copy, PartialEq, Eq, Structural, Debug)]
pub struct ChunkStoreStats {
    pub num_chunks: u64,
    pub total_num_rows: u64,
    pub total_size_bytes: u64,
}

/// Number of rows of a chunk, as a weight for store-wide sums.
pub open spec fn chunk_rows_weight() -> spec_fn(ChunkView) -> nat {
    |c: ChunkView| c.rows.len()
}

/// Byte size of a chunk, as a weight for store-wide sums.
pub open spec fn chunk_size_weight() -> spec_fn(ChunkView) -> nat {
    |c: ChunkView| c.size()
}

/// An append-oriented, in-memory store of immutable chunks.
pub struct ChunkStore {
    id: StoreId,
    chunks: Vec<Chunk>,
    insert_id: u64,
    gc_id: u64,
    total_rows: u64,
    total_size: u64,
}

impl ChunkStore {
    /// The sequence of chunks currently held, oldest insertion first.
    pub closed spec fn chunks_view(&self) -> Seq<ChunkView> {
        self.chunks@.map_values(|c: Chunk| c@)
    }

    pub closed spec fn id_view(&self) -> StoreIdView {
        self.id@
    }

    pub closed spec fn spec_insert_id(&self) -> u64 {
        self.insert_id
    }

    pub closed spec fn spec_gc_id(&self) -> u64 {
        self.gc_id
    }

    /// Internal coherence: every chunk is well formed, strictly sorted by row
    /// id and uniquely identified, and the running totals match the content.
    pub closed spec fn wf(&self) -> bool {
        &&& forall|i: int|
            0 <= i < self.chunks_view().len() ==> (#[trigger] self.chunks_view()[i]).wf()
                && self.chunks_view()[i].rows_sorted_strict()
        &&& forall|i: int, j: int|
            0 <= i < j < self.chunks_view().len() ==> self.chunks_view()[i].id
                != self.chunks_view()[j].id
        &&& self.total_rows == seq_sum(self.chunks_view(), chunk_rows_weight())
        &&& self.total_size == seq_sum(self.chunks_view(), chunk_size_weight())
    }

    /// A fresh, empty store under the given id.
    pub fn new(id: StoreId) -> (r: ChunkStore)
        ensures
            r.wf(),
            r.id_view() == id@,
            r.chunks_view() =~= Seq::<ChunkView>::empty(),
            r.spec_insert_id() == 0,
            r.spec_gc_id() == 0,
    {
        let r = ChunkStore {
            id,
            chunks: Vec::new(),
            insert_id: 0,
            gc_id: 0,
            total_rows: 0,
            total_size: 0,
        };
        proof {
            assert(r.chunks_view() =~= Seq::<ChunkView>::empty());
        }
        r
    }

    pub fn id(&self) -> (r: &StoreId)
        ensures
            r@ == self.id_view(),
    {
        &self.id
    }

    /// The store's generation token; it changes on every mutation.
    pub fn generation(&self) -> (r: ChunkStoreGeneration)
        ensures
            r.insert_id == self.spec_insert_id(),
            r.gc_id == self.spec_gc_id(),
    {
        ChunkStoreGeneration { insert_id: self.insert_id, gc_id: self.gc_id }
    }

    /// Aggregate size of the store's current content.
    pub fn stats(&self) -> (r: ChunkStoreStats)
        requires
            self.wf(),
        ensures
            r.num_chunks == self.chunks_view().len(),
            r.total_num_rows == seq_sum(self.chunks_view(), chunk_rows_weight()),
            r.total_size_bytes == seq_sum(self.chunks_view(), chunk_size_weight()),
    {
        ChunkStoreStats {
            num_chunks: self.chunks.len() as u64,
            total_num_rows: self.total_rows,
            total_size_bytes: self.total_size,
        }
    }

    /// The chunks currently held, oldest insertion first; a restartable,
    /// finite iteration source.
    pub fn iter_chunks(&self) -> (r: &Vec<Chunk>)
        ensures
            r@.map_values(|c: Chunk| c@) == self.chunks_view(),
    {
        &self.chunks
    }

    /// Whether some chunk in the store already carries this id.
    fn has_chunk_id(&self, id: crate::ids::ChunkId) -> (r: bool)
        ensures
            r == exists|i: int|
                0 <= i < self.chunks_view().len() && (#[trigger] self.chunks_view()[i]).id == id,
    {
        let n = self.chunks.len();
        let mut i: usize = 0;
        while i < n
            invariant
                i <= n,
                n == self.chunks.len(),
                forall|j: int| 0 <= j < i ==> (#[trigger] self.chunks_view()[j]).id != id,
            decreases n - i,
        {
            if self.chunks[i].id == id {
                proof {
                    assert(self.chunks_view()[i as int].id == id);
                }
                return true;
            }
            i = i + 1;
        }
        false
    }

    /// Inserts one chunk. On success the chunk is appended and the returned
    /// diff holds exactly one addition event for it; on failure the store is
    /// left untouched.
    pub fn insert_chunk(&mut self, chunk: &Chunk) -> (r: Result<
        Vec<ChunkStoreEvent>,
        ChunkStoreError,
    >)
        requires
            old(self).wf(),
            chunk@.wf(),
        ensures
            final(self).wf(),
            final(self).id_view() == old(self).id_view(),
            (r is Ok) == (chunk@.rows_sorted_strict() && !(exists|i: int|
                0 <= i < old(self).chunks_view().len() && (#[trigger] old(
                    self,
                ).chunks_view()[i]).id == chunk@.id) && old(self).spec_insert_id() < u64::MAX
                && chunk@.size() <= u64::MAX && seq_sum(old(self).chunks_view(), chunk_rows_weight())
                + chunk@.rows.len() <= u64::MAX && seq_sum(
                old(self).chunks_view(),
                chunk_size_weight(),
            ) + chunk@.size() <= u64::MAX),
            match r {
                Ok(events) => {
                    &&& chunk@.rows_sorted_strict()
                    &&& final(self).chunks_view() == old(self).chunks_view().push(chunk@)
                    &&& events@.len() == 1
                    &&& events@[0]@.kind == ChunkStoreDiffKind::Addition
                    &&& events@[0]@.chunk == chunk@
                    &&& events@[0]@.store_id == old(self).id_view()
                    &&& final(self).spec_insert_id() == old(self).spec_insert_id() + 1
                    &&& final(self).spec_gc_id() == old(self).spec_gc_id()
                },
                Err(e) => {
                    &&& *final(self) == *old(self)
                    &&& (e == ChunkStoreError::UnsortedRowIds <==> !chunk@.rows_sorted_strict())
                    &&& (e == ChunkStoreError::DuplicateChunkId <==> chunk@.rows_sorted_strict()
                        && exists|i: int|
                        0 <= i < old(self).chunks_view().len() && (#[trigger] old(
                            self,
                        ).chunks_view()[i]).id == chunk@.id)
                },
            },
    {
        if !chunk.is_sorted_strict() {
            return Err(ChunkStoreError::UnsortedRowIds);
        }
        if self.has_chunk_id(chunk.id) {
            return Err(ChunkStoreError::DuplicateChunkId);
        }
        if self.insert_id == u64::MAX {
            return Err(ChunkStoreError::CapacityExceeded);
        }
        let chunk_size = match chunk.size_bytes() {
            Some(s) => s,
            None => {
                return Err(ChunkStoreError::CapacityExceeded);
            },
        };
        let new_rows = match self.total_rows.checked_add(chunk.num_rows() as u64) {
            Some(v) => v,
            None => {
                return Err(ChunkStoreError::CapacityExceeded);
            },
        };
        let new_size = match self.total_size.checked_add(chunk_size) {
            Some(v) => v,
            None => {
                return Err(ChunkStoreError::CapacityExceeded);
            },
        };
        let ghost before = self.chunks_view();
        let stored = chunk.clone();
        self.chunks.push(stored);
        self.total_rows = new_rows;
        self.total_size = new_size;
        self.insert_id = self.insert_id + 1;
        let event = ChunkStoreEvent {
            store_id: self.id.clone(),
            kind: ChunkStoreDiffKind::Addition,
            chunk: chunk.clone(),
        };
        let mut events: Vec<ChunkStoreEvent> = Vec::new();
        events.push(event);
        proof {
            assert(self.chunks_view() =~= before.push(chunk@));
            lemma_seq_sum_push(before, chunk@, chunk_rows_weight());
            lemma_seq_sum_push(before, chunk@, chunk_size_weight());
            assert forall|i: int, j: int|
                0 <= i < j < self.chunks_view().len() implies self.chunks_view()[i].id
                != self.chunks_view()[j].id by {
                if j == self.chunks_view().len() - 1 {
                    assert(self.chunks_view()[i] == before[i]);
                }
            }
        }
        Ok(events)
    }
}

} // verus!

use crate::chunk::{index_in, rows_max_row_id, rows_max_time};
use crate::ids::Timeline;
use crate::sums::{lemma_seq_count_le_len, lemma_seq_count_push, lemma_seq_sum_cons};

verus! {

/// What a garbage-collection pass is asked to achieve.
#[derive(Clone, Copy, PartialEq, Eq, Structural, Debug)]
pub enum GarbageCollectionTarget {
    /// Drop every chunk the protection policy does not cover.
    Everything,
    /// Drop unprotected chunks, oldest insertion first, until at least
    /// `numerator / denominator` of the store's bytes are gone.
    DropAtLeastFraction { numerator: u64, denominator: u64 },
}

/// One garbage-collection request.
#[derive(Clone, Copy, PartialEq, Eq, Structural, Debug)]
pub struct GarbageCollectionOptions {
    pub target: GarbageCollectionTarget,
    /// For each entity and each of its timelines, this many of the newest
    /// chunks survive whatever the target asks for. Static chunks always
    /// survive.
    pub protect_latest: usize,
    /// Advisory soft deadline for the pass. It is not a hard preemption
    /// guarantee; this in-memory store's pass is a single sweep and always
    /// completes.
    pub time_budget_nanos: u64,
}

/// Whether chunk `a` is strictly newer than chunk `b` on timeline `tl`:
/// its newest time there is later, with the greatest row id breaking ties.
pub open spec fn chunk_key_gt(a: ChunkView, b: ChunkView, tl: Seq<char>) -> bool {
    let ta = rows_max_time(a.rows, index_in(a.timelines, tl));
    let tb = rows_max_time(b.rows, index_in(b.timelines, tl));
    ta > tb || (ta == tb && rows_max_row_id(b.rows).spec_lt(rows_max_row_id(a.rows)))
}

/// The peers of `c` that are strictly newer than it on timeline `tl`.
pub open spec fn newer_on(c: ChunkView, tl: Seq<char>) -> spec_fn(ChunkView) -> bool {
    |d: ChunkView|
        d.entity_path == c.entity_path && d.timelines.contains(tl) && chunk_key_gt(d, c, tl)
}

/// How many chunks of `chunks` are strictly newer than `c` on timeline `tl`.
pub open spec fn newer_count(chunks: Seq<ChunkView>, c: ChunkView, tl: Seq<char>) -> nat {
    seq_count(chunks, newer_on(c, tl))
}

/// The "protect latest" policy: a chunk survives when it is static, or when
/// on some of its timelines fewer than `n` peers are strictly newer.
pub open spec fn chunk_protected(chunks: Seq<ChunkView>, c: ChunkView, n: nat) -> bool {
    c.is_static() || exists|k: int|
        0 <= k < c.timelines.len() && newer_count(chunks, c, c.timelines[k]) < n
}

/// [`chunk_protected`] as a predicate over chunks of one store content.
pub open spec fn protected_in(chunks: Seq<ChunkView>, n: nat) -> spec_fn(ChunkView) -> bool {
    |c: ChunkView| chunk_protected(chunks, c, n)
}

/// When a pass stops dropping: never for a full sweep, or once the dropped
/// bytes reach the requested fraction of `total`.
pub open spec fn gc_stop(target: GarbageCollectionTarget, total: nat) -> spec_fn(nat) -> bool {
    match target {
        GarbageCollectionTarget::Everything => |d: nat| false,
        GarbageCollectionTarget::DropAtLeastFraction { numerator, denominator } => |d: nat|
            d * denominator >= numerator * total,
    }
}

/// The chunks a pass drops: walking `rem` oldest first, every chunk that is
/// not protected within `all` is dropped until `stop` holds of the dropped
/// byte count.
pub open spec fn gc_dropped(
    rem: Seq<ChunkView>,
    all: Seq<ChunkView>,
    n: nat,
    dropped_bytes: nat,
    stop: spec_fn(nat) -> bool,
) -> Seq<ChunkView>
    decreases rem.len(),
{
    if rem.len() == 0 {
        Seq::<ChunkView>::empty()
    } else if stop(dropped_bytes) {
        Seq::<ChunkView>::empty()
    } else if !chunk_protected(all, rem[0], n) {
        seq![rem[0]] + gc_dropped(rem.skip(1), all, n, dropped_bytes + rem[0].size(), stop)
    } else {
        gc_dropped(rem.skip(1), all, n, dropped_bytes, stop)
    }
}

/// The chunks the same pass keeps, in their original order.
pub open spec fn gc_kept(
    rem: Seq<ChunkView>,
    all: Seq<ChunkView>,
    n: nat,
    dropped_bytes: nat,
    stop: spec_fn(nat) -> bool,
) -> Seq<ChunkView>
    decreases rem.len(),
{
    if rem.len() == 0 {
        rem
    } else if stop(dropped_bytes) {
        rem
    } else if !chunk_protected(all, rem[0], n) {
        gc_kept(rem.skip(1), all, n, dropped_bytes + rem[0].size(), stop)
    } else {
        seq![rem[0]] + gc_kept(rem.skip(1), all, n, dropped_bytes, stop)
    }
}

/// A pass only ever partitions its input: any weighting sums over the kept
/// and the dropped chunks to its sum over all of them.
pub proof fn lemma_gc_walk_sums(
    rem: Seq<ChunkView>,
    all: Seq<ChunkView>,
    n: nat,
    d: nat,
    stop: spec_fn(nat) -> bool,
    f: spec_fn(ChunkView) -> nat,
)
    ensures
        seq_sum(rem, f) == seq_sum(gc_kept(rem, all, n, d, stop), f) + seq_sum(
            gc_dropped(rem, all, n, d, stop),
            f,
        ),
    decreases rem.len(),
{
    if rem.len() == 0 {
    } else if stop(d) {
    } else if !chunk_protected(all, rem[0], n) {
        lemma_gc_walk_sums(rem.skip(1), all, n, d + rem[0].size(), stop, f);
        lemma_seq_sum_cons(rem[0], gc_dropped(rem.skip(1), all, n, d + rem[0].size(), stop), f);
    } else {
        lemma_gc_walk_sums(rem.skip(1), all, n, d, stop, f);
        lemma_seq_sum_cons(rem[0], gc_kept(rem.skip(1), all, n, d, stop), f);
    }
}

/// Every chunk a pass keeps or drops is one of the chunks walked.
pub proof fn lemma_gc_walk_membership(
    rem: Seq<ChunkView>,
    all: Seq<ChunkView>,
    n: nat,
    d: nat,
    stop: spec_fn(nat) -> bool,
)
    ensures
        forall|i: int|
            0 <= i < gc_kept(rem, all, n, d, stop).len() ==> rem.contains(
                #[trigger] gc_kept(rem, all, n, d, stop)[i],
            ),
        forall|i: int|
            0 <= i < gc_dropped(rem, all, n, d, stop).len() ==> rem.contains(
                #[trigger] gc_dropped(rem, all, n, d, stop)[i],
            ) && !chunk_protected(all, gc_dropped(rem, all, n, d, stop)[i], n),
    decreases rem.len(),
{
    let kept = gc_kept(rem, all, n, d, stop);
    let dropped = gc_dropped(rem, all, n, d, stop);
    if rem.len() == 0 {
    } else if stop(d) {
        assert(kept == rem);
    } else {
        let d2: nat = if !chunk_protected(all, rem[0], n) {
            d + rem[0].size()
        } else {
            d
        };
        lemma_gc_walk_membership(rem.skip(1), all, n, d2, stop);
        let kt = gc_kept(rem.skip(1), all, n, d2, stop);
        let dt = gc_dropped(rem.skip(1), all, n, d2, stop);
        assert(forall|i: int| 0 <= i < rem.skip(1).len() ==> #[trigger] rem.skip(1)[i] == rem[i + 1]);
        assert forall|i: int| 0 <= i < kept.len() implies rem.contains(#[trigger] kept[i]) by {
            if chunk_protected(all, rem[0], n) && i == 0 {
                assert(kept[0] == rem[0]);
            } else {
                let base: int = if chunk_protected(all, rem[0], n) {
                    1
                } else {
                    0
                };
                assert(kept[i] == kt[i - base]);
                assert(rem.skip(1).contains(kt[i - base]));
                let j = choose|j: int| 0 <= j < rem.skip(1).len() && rem.skip(1)[j] == kt[i - base];
                assert(rem[j + 1] == kept[i]);
            }
        }
        assert forall|i: int| 0 <= i < dropped.len() implies rem.contains(#[trigger] dropped[i])
            && !chunk_protected(all, dropped[i], n) by {
            if !chunk_protected(all, rem[0], n) && i == 0 {
                assert(dropped[0] == rem[0]);
            } else {
                let base: int = if !chunk_protected(all, rem[0], n) {
                    1
                } else {
                    0
                };
                assert(dropped[i] == dt[i - base]);
                assert(rem.skip(1).contains(dt[i - base]));
                let j = choose|j: int| 0 <= j < rem.skip(1).len() && rem.skip(1)[j] == dt[i - base];
                assert(rem[j + 1] == dropped[i]);
            }
        }
    }
}

} // verus!

verus! {

/// A pass keeps only chunks with pairwise distinct ids when given such
/// chunks.
pub proof fn lemma_gc_kept_ids_unique(
    rem: Seq<ChunkView>,
    all: Seq<ChunkView>,
    n: nat,
    d: nat,
    stop: spec_fn(nat) -> bool,
)
    requires
        forall|i: int, j: int|
            0 <= i < j < rem.len() ==> (#[trigger] rem[i]).id != (#[trigger] rem[j]).id,
    ensures
        forall|i: int, j: int|
            0 <= i < j < gc_kept(rem, all, n, d, stop).len() ==> (#[trigger] gc_kept(
                rem,
                all,
                n,
                d,
                stop,
            )[i]).id != (#[trigger] gc_kept(rem, all, n, d, stop)[j]).id,
    decreases rem.len(),
{
    let kept = gc_kept(rem, all, n, d, stop);
    if rem.len() == 0 {
    } else if stop(d) {
    } else {
        assert(forall|i: int| 0 <= i < rem.skip(1).len() ==> #[trigger] rem.skip(1)[i] == rem[i + 1]);
        let d2: nat = if !chunk_protected(all, rem[0], n) {
            d + rem[0].size()
        } else {
            d
        };
        lemma_gc_kept_ids_unique(rem.skip(1), all, n, d2, stop);
        lemma_gc_walk_membership(rem.skip(1), all, n, d2, stop);
        let kt = gc_kept(rem.skip(1), all, n, d2, stop);
        if !chunk_protected(all, rem[0], n) {
            assert(kept == kt);
        } else {
            assert(kept == seq![rem[0]] + kt);
            assert forall|i: int, j: int| 0 <= i < j < kept.len() implies (#[trigger] kept[i]).id
                != (#[trigger] kept[j]).id by {
                if i == 0 {
                    assert(kept[j] == kt[j - 1]);
                    assert(rem.skip(1).contains(kt[j - 1]));
                    let m = choose|m: int|
                        0 <= m < rem.skip(1).len() && rem.skip(1)[m] == kt[j - 1];
                    assert(rem[m + 1] == kept[j]);
                    assert(rem[0].id != rem[m + 1].id);
                } else {
                    assert(kept[i] == kt[i - 1] && kept[j] == kt[j - 1]);
                }
            }
        }
    }
}

impl ChunkStore {
    /// Whether chunk `a` is strictly newer than `b` on timeline `tl`.
    fn key_gt(a: &Chunk, b: &Chunk, tl: &Timeline) -> (r: bool)
        requires
            a@.wf(),
            b@.wf(),
            a@.timelines.contains(tl@),
            b@.timelines.contains(tl@),
        ensures
            r == chunk_key_gt(a@, b@, tl@),
    {
        let ra = match a.time_range_on(tl) {
            Some(r) => r,
            None => {
                return vstd::pervasive::unreached();
            },
        };
        let rb = match b.time_range_on(tl) {
            Some(r) => r,
            None => {
                return vstd::pervasive::unreached();
            },
        };
        let ia = match a.row_id_range() {
            Some(p) => p,
            None => {
                return vstd::pervasive::unreached();
            },
        };
        let ib = match b.row_id_range() {
            Some(p) => p,
            None => {
                return vstd::pervasive::unreached();
            },
        };
        ra.max > rb.max || (ra.max == rb.max && ib.1.lt(&ia.1))
    }

    /// How many stored chunks are strictly newer than `c` on timeline `tl`.
    fn count_newer(&self, c: &Chunk, tl: &Timeline) -> (r: usize)
        requires
            self.wf(),
            c@.wf(),
            c@.timelines.contains(tl@),
        ensures
            r == newer_count(self.chunks_view(), c@, tl@),
    {
        let ghost all = self.chunks_view();
        let ghost p = newer_on(c@, tl@);
        let n = self.chunks.len();
        let mut cnt: usize = 0;
        let mut j: usize = 0;
        proof {
            assert(all.take(0) =~= Seq::<ChunkView>::empty());
            lemma_seq_count_le_len(all, p);
        }
        while j < n
            invariant
                j <= n,
                n == self.chunks.len(),
                all == self.chunks_view(),
                p == newer_on(c@, tl@),
                self.wf(),
                c@.wf(),
                c@.timelines.contains(tl@),
                cnt == seq_count(all.take(j as int), p),
                seq_count(all, p) <= n,
            decreases n - j,
        {
            let d = &self.chunks[j];
            proof {
                assert(d@ == all[j as int]);
                assert(all.take(j + 1) =~= all.take(j as int).push(all[j as int]));
                lemma_seq_count_push(all.take(j as int), all[j as int], p);
            }
            let is_newer = if d.entity_path().eq(c.entity_path()) {
                match d.timeline_index(tl) {
                    Some(_) => Self::key_gt(d, c, tl),
                    None => false,
                }
            } else {
                false
            };
            proof {
                assert(is_newer == p(all[j as int]));
                if is_newer {
                    assert(seq_count(all.take(j + 1), p) <= seq_count(all, p)) by {
                        crate::sums::lemma_seq_sum_take_skip(
                            all,
                            j + 1,
                            crate::sums::indicator(p),
                        );
                    }
                }
            }
            if is_newer {
                cnt = cnt + 1;
            }
            j = j + 1;
        }
        proof {
            assert(all.take(n as int) =~= all);
        }
        cnt
    }

    /// Whether the protection policy covers `c` within this store's content.
    fn is_protected(&self, c: &Chunk, n: usize) -> (r: bool)
        requires
            self.wf(),
            c@.wf(),
        ensures
            r == chunk_protected(self.chunks_view(), c@, n as nat),
    {
        if c.is_static() {
            return true;
        }
        let nt = c.timelines.len();
        let mut k: usize = 0;
        while k < nt
            invariant
                k <= nt,
                nt == c.timelines.len(),
                self.wf(),
                c@.wf(),
                forall|m: int|
                    0 <= m < k ==> newer_count(self.chunks_view(), c@, c@.timelines[m]) >= n,
            decreases nt - k,
        {
            proof {
                assert(c@.timelines[k as int] == c.timelines@[k as int]@);
                assert(c@.timelines.contains(c@.timelines[k as int]));
            }
            let cnt = self.count_newer(c, &c.timelines[k]);
            if cnt < n {
                return true;
            }
            k = k + 1;
        }
        false
    }
}

} // verus!

verus! {


/// The full 128-bit product of two 64-bit values.
fn wide_mul(a: u64, b: u64) -> (r: u128)
    ensures
        r == (a as nat) * (b as nat),
{
    proof {
        assert((a as nat) * (b as nat) <= u128::MAX as nat) by (nonlinear_arith)
            requires
                a as nat <= 0xFFFFFFFFFFFFFFFFnat,
                b as nat <= 0xFFFFFFFFFFFFFFFFnat,
        ;
    }
    (a as u128) * (b as u128)
}

/// The complement of [`protected_in`].
pub open spec fn unprotected_in(chunks: Seq<ChunkView>, n: nat) -> spec_fn(ChunkView) -> bool {
    |c: ChunkView| !chunk_protected(chunks, c, n)
}

/// With no byte target to stop at, a pass keeps exactly the protected chunks
/// and drops exactly the unprotected ones.
pub proof fn lemma_gc_walk_everything(
    rem: Seq<ChunkView>,
    all: Seq<ChunkView>,
    n: nat,
    d: nat,
    total: nat,
)
    ensures
        gc_kept(rem, all, n, d, gc_stop(GarbageCollectionTarget::Everything, total)) == seq_filter(
            rem,
            protected_in(all, n),
        ),
        gc_dropped(rem, all, n, d, gc_stop(GarbageCollectionTarget::Everything, total))
            == seq_filter(rem, unprotected_in(all, n)),
    decreases rem.len(),
{
    let stop = gc_stop(GarbageCollectionTarget::Everything, total);
    if rem.len() == 0 {
        assert(gc_kept(rem, all, n, d, stop) =~= seq_filter(rem, protected_in(all, n)));
        assert(gc_dropped(rem, all, n, d, stop) =~= seq_filter(rem, unprotected_in(all, n)));
    } else {
        assert(!stop(d));
        if !chunk_protected(all, rem[0], n) {
            lemma_gc_walk_everything(rem.skip(1), all, n, d + rem[0].size(), total);
        } else {
            lemma_gc_walk_everything(rem.skip(1), all, n, d, total);
        }
    }
}

impl ChunkStore {
    /// One garbage-collection pass: walks the chunks oldest insertion first
    /// and evicts every chunk the "protect latest" policy does not cover,
    /// until the target is met. Returns the deletion diff and the aggregate
    /// size of what was dropped. Protected chunks are never removed.
    pub fn gc(&mut self, options: &GarbageCollectionOptions) -> (r: (
        Vec<ChunkStoreEvent>,
        ChunkStoreStats,
    ))
        requires
            old(self).wf(),
        ensures
            final(self).wf(),
            final(self).id_view() == old(self).id_view(),
            final(self).spec_insert_id() == old(self).spec_insert_id(),
            final(self).spec_gc_id() == if old(self).spec_gc_id() < u64::MAX {
                old(self).spec_gc_id() + 1
            } else {
                u64::MAX as int
            },
            ({
                let all = old(self).chunks_view();
                let np = options.protect_latest as nat;
                let stop = gc_stop(options.target, seq_sum(all, chunk_size_weight()));
                let dropped = gc_dropped(all, all, np, 0, stop);
                &&& final(self).chunks_view() == gc_kept(all, all, np, 0, stop)
                &&& r.0@.len() == dropped.len()
                &&& forall|i: int|
                    0 <= i < dropped.len() ==> (#[trigger] r.0@[i])@.kind
                        == ChunkStoreDiffKind::Deletion && r.0@[i]@.chunk == dropped[i]
                        && r.0@[i]@.store_id == old(self).id_view()
                &&& forall|i: int|
                    0 <= i < dropped.len() ==> all.contains(#[trigger] dropped[i])
                        && !chunk_protected(all, dropped[i], np)
                &&& r.1.num_chunks == dropped.len()
                &&& r.1.total_num_rows == seq_sum(dropped, chunk_rows_weight())
                &&& r.1.total_size_bytes == seq_sum(dropped, chunk_size_weight())
            }),
    {
        let ghost all = self.chunks_view();
        let ghost np = options.protect_latest as nat;
        let ghost total_nat = seq_sum(all, chunk_size_weight());
        let ghost stop = gc_stop(options.target, total_nat);
        let total = self.total_size;

        let n = self.chunks.len();
        let mut kept: Vec<Chunk> = Vec::new();
        let mut events: Vec<ChunkStoreEvent> = Vec::new();
        let mut dropped_rows: u64 = 0;
        let mut dropped_size: u64 = 0;
        let mut kept_rows: u64 = 0;
        let mut kept_size: u64 = 0;
        let mut i: usize = 0;
        proof {
            assert(all.take(0) =~= Seq::<ChunkView>::empty());
            assert(all.skip(0) =~= all);
        }
        while i < n
            invariant
                i <= n,
                n == self.chunks.len(),
                self.wf(),
                all == self.chunks_view(),
                total == self.total_size,
                total_nat == seq_sum(all, chunk_size_weight()),
                stop == gc_stop(options.target, total_nat),
                np == options.protect_latest as nat,
                dropped_size == seq_sum(
                    events@.map_values(|e: ChunkStoreEvent| e@.chunk),
                    chunk_size_weight(),
                ),
                dropped_rows == seq_sum(
                    events@.map_values(|e: ChunkStoreEvent| e@.chunk),
                    chunk_rows_weight(),
                ),
                kept_size == seq_sum(kept@.map_values(|c: Chunk| c@), chunk_size_weight()),
                kept_rows == seq_sum(kept@.map_values(|c: Chunk| c@), chunk_rows_weight()),
                dropped_size + kept_size == seq_sum(all.take(i as int), chunk_size_weight()),
                dropped_rows + kept_rows == seq_sum(all.take(i as int), chunk_rows_weight()),
                events@.len() <= i,
                forall|m: int|
                    0 <= m < events@.len() ==> (#[trigger] events@[m])@.kind
                        == ChunkStoreDiffKind::Deletion && events@[m]@.store_id == self.id_view(),
                gc_kept(all, all, np, 0, stop) == kept@.map_values(|c: Chunk| c@) + gc_kept(
                    all.skip(i as int),
                    all,
                    np,
                    dropped_size as nat,
                    stop,
                ),
                gc_dropped(all, all, np, 0, stop) == events@.map_values(
                    |e: ChunkStoreEvent| e@.chunk,
                ) + gc_dropped(all.skip(i as int), all, np, dropped_size as nat, stop),
            decreases n - i,
        {
            let ghost kept_views = kept@.map_values(|c: Chunk| c@);
            let ghost dropped_views = events@.map_values(|e: ChunkStoreEvent| e@.chunk);
            let ghost rem = all.skip(i as int);
            proof {
                assert(rem[0] == all[i as int]);
                assert(rem.skip(1) =~= all.skip(i as int + 1));
                assert(all.take(i as int + 1) =~= all.take(i as int).push(all[i as int]));
                lemma_seq_sum_push(all.take(i as int), all[i as int], chunk_size_weight());
                lemma_seq_sum_push(all.take(i as int), all[i as int], chunk_rows_weight());
                lemma_seq_sum_take_skip(all, i as int + 1, chunk_size_weight());
                lemma_seq_sum_take_skip(all, i as int + 1, chunk_rows_weight());
                assert(self.total_rows == seq_sum(all, chunk_rows_weight()));
            }
            let stop_now = match options.target {
                GarbageCollectionTarget::Everything => false,
                GarbageCollectionTarget::DropAtLeastFraction { numerator, denominator } => wide_mul(
                    dropped_size,
                    denominator,
                ) >= wide_mul(numerator, total),
            };
            proof {
                assert(stop_now == stop(dropped_size as nat));
            }
            let c = &self.chunks[i];
            proof {
                assert(c@ == all[i as int]);
            }
            let keep_it = stop_now || self.is_protected(c, options.protect_latest);
            let c = &self.chunks[i];
            if keep_it {
                kept.push(c.clone());
                kept_size = kept_size + match c.size_bytes() {
                    Some(s) => s,
                    None => {
                        return vstd::pervasive::unreached();
                    },
                };
                kept_rows = kept_rows + c.num_rows() as u64;
                proof {
                    assert(kept@.map_values(|c: Chunk| c@) =~= kept_views.push(all[i as int]));
                    lemma_seq_sum_push(kept_views, all[i as int], chunk_size_weight());
                    lemma_seq_sum_push(kept_views, all[i as int], chunk_rows_weight());
                    if stop(dropped_size as nat) {
                        assert(gc_kept(rem, all, np, dropped_size as nat, stop) == rem);
                        assert(rem =~= seq![all[i as int]] + rem.skip(1));
                        assert(gc_kept(rem.skip(1), all, np, dropped_size as nat, stop) == rem.skip(
                            1,
                        ));
                        assert(gc_dropped(rem, all, np, dropped_size as nat, stop)
                            == gc_dropped(rem.skip(1), all, np, dropped_size as nat, stop));
                    }
                    assert(kept_views.push(all[i as int]) + gc_kept(
                        all.skip(i as int + 1),
                        all,
                        np,
                        dropped_size as nat,
                        stop,
                    ) =~= kept_views + (seq![all[i as int]] + gc_kept(
                        all.skip(i as int + 1),
                        all,
                        np,
                        dropped_size as nat,
                        stop,
                    )));
                }
            } else {
                let ev = ChunkStoreEvent {
                    store_id: self.id.clone(),
                    kind: ChunkStoreDiffKind::Deletion,
                    chunk: c.clone(),
                };
                events.push(ev);
                let csize = match c.size_bytes() {
                    Some(s) => s,
                    None => {
                        return vstd::pervasive::unreached();
                    },
                };
                proof {
                    assert(dropped_size + csize <= total);
                }
                dropped_size = dropped_size + csize;
                dropped_rows = dropped_rows + c.num_rows() as u64;
                proof {
                    assert(events@.map_values(|e: ChunkStoreEvent| e@.chunk) =~= dropped_views.push(
                        all[i as int],
                    ));
                    lemma_seq_sum_push(dropped_views, all[i as int], chunk_size_weight());
                    lemma_seq_sum_push(dropped_views, all[i as int], chunk_rows_weight());
                    assert(dropped_views.push(all[i as int]) + gc_dropped(
                        all.skip(i as int + 1),
                        all,
                        np,
                        dropped_size as nat,
                        stop,
                    ) =~= dropped_views + (seq![all[i as int]] + gc_dropped(
                        all.skip(i as int + 1),
                        all,
                        np,
                        dropped_size as nat,
                        stop,
                    )));
                }
            }
            i = i + 1;
        }
        proof {
            assert(all.take(n as int) =~= all);
            assert(all.skip(n as int) =~= Seq::<ChunkView>::empty());
            assert(gc_kept(all, all, np, 0, stop) == kept@.map_values(|c: Chunk| c@));
            assert(gc_dropped(all, all, np, 0, stop) == events@.map_values(
                |e: ChunkStoreEvent| e@.chunk,
            ));
            lemma_gc_walk_membership(all, all, np, 0, stop);
            lemma_gc_kept_ids_unique(all, all, np, 0, stop);
        }
        self.chunks = kept;
        self.total_rows = kept_rows;
        self.total_size = kept_size;
        if self.gc_id < u64::MAX {
            self.gc_id = self.gc_id + 1;
        }
        let stats = ChunkStoreStats {
            num_chunks: events.len() as u64,
            total_num_rows: dropped_rows,
            total_size_bytes: dropped_size,
        };
        proof {
            let kept_v = self.chunks_view();
            assert forall|m: int| 0 <= m < kept_v.len() implies (#[trigger] kept_v[m]).wf()
                && kept_v[m].rows_sorted_strict() by {
                assert(all.contains(kept_v[m]));
                let w = choose|w: int| 0 <= w < all.len() && all[w] == kept_v[m];
                assert(all[w].wf());
            }
        }
        (events, stats)
    }
}

} // verus!

use crate::ids::ChunkId;
use crate::sums::{lemma_seq_filter_all, lemma_seq_filter_congruence};

verus! {

/// Chunks whose id is not among `ids`.
pub open spec fn chunk_id_not_in(ids: Seq<ChunkId>) -> spec_fn(ChunkView) -> bool {
    |c: ChunkView| !ids.contains(c.id)
}

/// The ids of a sequence of chunks.
pub open spec fn chunk_ids(chunks: Seq<ChunkView>) -> Seq<ChunkId> {
    chunks.map_values(|c: ChunkView| c.id)
}

/// With unique chunk ids, what a pass keeps is exactly what survives removing
/// the dropped ids.
pub proof fn lemma_gc_kept_filter_ids(
    rem: Seq<ChunkView>,
    all: Seq<ChunkView>,
    n: nat,
    d: nat,
    stop: spec_fn(nat) -> bool,
)
    requires
        forall|i: int, j: int|
            0 <= i < j < rem.len() ==> (#[trigger] rem[i]).id != (#[trigger] rem[j]).id,
    ensures
        gc_kept(rem, all, n, d, stop) == seq_filter(
            rem,
            chunk_id_not_in(chunk_ids(gc_dropped(rem, all, n, d, stop))),
        ),
    decreases rem.len(),
{
    let kept = gc_kept(rem, all, n, d, stop);
    let dropped = gc_dropped(rem, all, n, d, stop);
    let ids = chunk_ids(dropped);
    if rem.len() == 0 {
        assert(kept =~= seq_filter(rem, chunk_id_not_in(ids)));
    } else if stop(d) {
        assert(dropped.len() == 0);
        assert(forall|i: int| 0 <= i < rem.len() ==> chunk_id_not_in(ids)(#[trigger] rem[i]));
        lemma_seq_filter_all(rem, chunk_id_not_in(ids));
    } else {
        assert(forall|i: int| 0 <= i < rem.skip(1).len() ==> #[trigger] rem.skip(1)[i] == rem[i + 1]);
        let d2: nat = if !chunk_protected(all, rem[0], n) {
            d + rem[0].size()
        } else {
            d
        };
        lemma_gc_kept_filter_ids(rem.skip(1), all, n, d2, stop);
        let dt = gc_dropped(rem.skip(1), all, n, d2, stop);
        let kt = gc_kept(rem.skip(1), all, n, d2, stop);
        let ids_t = chunk_ids(dt);
        lemma_gc_walk_membership(rem.skip(1), all, n, d2, stop);
        if !chunk_protected(all, rem[0], n) {
            assert(dropped == seq![rem[0]] + dt);
            assert(ids =~= seq![rem[0].id] + ids_t);
            assert(ids[0] == rem[0].id);
            assert(ids.contains(rem[0].id));
            assert(!chunk_id_not_in(ids)(rem[0]));
            assert(seq_filter(rem, chunk_id_not_in(ids)) == seq_filter(
                rem.skip(1),
                chunk_id_not_in(ids),
            ));
            assert(forall|m: int| 0 <= m < ids_t.len() ==> #[trigger] ids[m + 1] == ids_t[m]);
            assert forall|i: int| 0 <= i < rem.skip(1).len() implies chunk_id_not_in(ids)(
                #[trigger] rem.skip(1)[i],
            ) == chunk_id_not_in(ids_t)(rem.skip(1)[i]) by {
                let x = rem.skip(1)[i];
                assert(x == rem[i + 1]);
                assert(x.id != rem[0].id);
                if ids.contains(x.id) {
                    let m = choose|m: int| 0 <= m < ids.len() && ids[m] == x.id;
                    assert(m >= 1);
                    assert(ids_t[m - 1] == x.id);
                    assert(ids_t.contains(x.id));
                }
                if ids_t.contains(x.id) {
                    let m = choose|m: int| 0 <= m < ids_t.len() && ids_t[m] == x.id;
                    assert(ids[m + 1] == x.id);
                    assert(ids.contains(x.id));
                }
            }
            lemma_seq_filter_congruence(rem.skip(1), chunk_id_not_in(ids), chunk_id_not_in(ids_t));
            assert(kept == kt);
        } else {
            assert(dropped == dt);
            assert(ids == ids_t);
            assert(chunk_id_not_in(ids)(rem[0])) by {
                if ids.contains(rem[0].id) {
                    let m = choose|m: int| 0 <= m < ids.len() && ids[m] == rem[0].id;
                    assert(ids[m] == dt[m].id);
                    assert(rem.skip(1).contains(dt[m]));
                    let j = choose|j: int| 0 <= j < rem.skip(1).len() && rem.skip(1)[j] == dt[m];
                    assert(rem[j + 1].id == rem[0].id);
                }
            }
            assert(seq_filter(rem, chunk_id_not_in(ids)) == seq![rem[0]] + seq_filter(
                rem.skip(1),
                chunk_id_not_in(ids),
            ));
            assert(kept == seq![rem[0]] + kt);
        }
    }
}

} // verus!

use crate::path::EntityPath;

verus! {

impl ChunkStore {
    /// Whether some stored chunk belongs to this entity path.
    pub fn contains_entity_path(&self, path: &EntityPath) -> (r: bool)
        ensures
            r == exists|i: int|
                0 <= i < self.chunks_view().len() && (#[trigger] self.chunks_view()[i]).entity_path
                    == path@,
    {
        let n = self.chunks.len();
        let mut i: usize = 0;
        while i < n
            invariant
                i <= n,
                n == self.chunks.len(),
                forall|j: int|
                    0 <= j < i ==> (#[trigger] self.chunks_view()[j]).entity_path != path@,
            decreases n - i,
        {
            proof {
                assert(self.chunks_view()[i as int] == self.chunks@[i as int]@);
            }
            if self.chunks[i].entity_path.eq(path) {
                proof {
                    assert(self.chunks_view()[i as int].entity_path == path@);
                }
                return true;
            }
            i = i + 1;
        }
        false
    }
}

} // verus!

verus! {

/// What the store's coherence guarantees of its content, for callers that
/// cannot see the invariant itself.
pub proof fn lemma_store_wf_facts(s: &ChunkStore)
    requires
        s.wf(),
    ensures
        forall|i: int|
            0 <= i < s.chunks_view().len() ==> (#[trigger] s.chunks_view()[i]).wf()
                && s.chunks_view()[i].rows_sorted_strict(),
        forall|i: int, j: int|
            0 <= i < j < s.chunks_view().len() ==> (#[trigger] s.chunks_view()[i]).id != (
            #[trigger] s.chunks_view()[j]).id,
        seq_sum(s.chunks_view(), chunk_rows_weight()) <= u64::MAX,
        seq_sum(s.chunks_view(), chunk_size_weight()) <= u64::MAX,
{
}

} // verus!
