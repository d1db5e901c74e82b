//! The query cache: a push-based subscriber that mirrors the store's chunks
//! and answers latest-at reads from that mirror.
//!
//! It mutates only through [`Caches::on_events`]; reads are lazily answered
//! from the mirrored chunks, which the database keeps equal to the store's.

use vstd::prelude::*;

use crate::chunk::{index_in, Chunk, ChunkView};
use crate::ids::{ChunkId, RowId, Timeline};
use crate::path::EntityPath;
use crate::store::{chunk_id_not_in, ChunkStoreDiffKind, ChunkStoreEvent};
use crate::sums::{lemma_seq_filter_push, seq_filter};
use crate::times::{all_additions, all_deletions, events_chunks};

verus! {

/// The chunk ids named by a sequence of store events.
pub open spec fn events_ids(events: Seq<ChunkStoreEvent>) -> Seq<ChunkId> {
    events.map_values(|e: ChunkStoreEvent| e@.chunk.id)
}

/// A latest-at read: the newest value at or before `at` on `timeline`.
#[derive(Debug)]
pub struct LatestAtQuery {
    pub timeline: Timeline,
    pub at: i64,
}

/// One latest-at hit: where the winning row sits and what it holds.
/// Static data wins over temporal data; `time` is zero for a static hit.
#[derive(Debug)]
pub struct LatestAtResult {
    pub is_static: bool,
    pub time: i64,
    pub row_id: RowId,
    pub value: Vec<u8>,
}

/// The candidate produced by row `ri` of chunk `ci` for a latest-at read of
/// component `comp` of entity `e` at time `at` on timeline `tl`: its
/// (static, time, row id) key and its value; `None` when that row offers
/// nothing for this read.
pub open spec fn cand_at(
    chunks: Seq<ChunkView>,
    e: Seq<Seq<char>>,
    comp: Seq<char>,
    tl: Seq<char>,
    at: i64,
    ci: int,
    ri: int,
) -> Option<(bool, i64, RowId, Seq<u8>)> {
    if 0 <= ci < chunks.len() && 0 <= ri < chunks[ci].rows.len() {
        let c = chunks[ci];
        if c.entity_path == e && c.components.contains(comp) && c.rows[ri].values[index_in(
            c.components,
            comp,
        )] is Some {
            let v = c.rows[ri].values[index_in(c.components, comp)]->Some_0;
            if c.is_static() {
                Some((true, 0, c.rows[ri].row_id, v))
            } else if c.timelines.contains(tl) && c.rows[ri].times[index_in(c.timelines, tl)]
                <= at {
                Some((false, c.rows[ri].times[index_in(c.timelines, tl)], c.rows[ri].row_id, v))
            } else {
                None
            }
        } else {
            None
        }
    } else {
        None
    }
}

/// Strict preference between latest-at keys: static beats temporal, then a
/// later time, then a greater row id.
pub open spec fn key_better(a: (bool, i64, RowId), b: (bool, i64, RowId)) -> bool {
    (a.0 && !b.0) || (a.0 == b.0 && (a.1 > b.1 || (a.1 == b.1 && b.2.spec_lt(a.2))))
}

/// The preference order on latest-at keys is transitive.
pub proof fn lemma_key_better_trans(a: (bool, i64, RowId), b: (bool, i64, RowId), c: (
    bool,
    i64,
    RowId,
))
    requires
        key_better(a, b),
        key_better(b, c),
    ensures
        key_better(a, c),
{
}

/// The query cache: a mirror of the store's chunks, kept in step by the
/// store's diffs.
pub struct Caches {
    chunks: Vec<Chunk>,
}

impl Caches {
    /// The mirrored chunks, oldest insertion first.
    pub closed spec fn chunks_view(&self) -> Seq<ChunkView> {
        self.chunks@.map_values(|c: Chunk| c@)
    }

    pub fn new() -> (r: Caches)
        ensures
            r.chunks_view() =~= Seq::<ChunkView>::empty(),
    {
        let r = Caches { chunks: Vec::new() };
        proof {
            assert(r.chunks_view() =~= Seq::<ChunkView>::empty());
        }
        r
    }

    /// The single mutation entrypoint: additions are appended in order;
    /// deletions remove every mirrored chunk whose id a deletion names.
    pub fn on_events(&mut self, events: &Vec<ChunkStoreEvent>)
        requires
            all_additions(events@) || all_deletions(events@),
        ensures
            all_additions(events@) ==> final(self).chunks_view() == old(self).chunks_view()
                + events_chunks(events@),
            all_deletions(events@) && events@.len() > 0 ==> final(self).chunks_view()
                == seq_filter(old(self).chunks_view(), chunk_id_not_in(events_ids(events@))),
    {
        let n = events.len();
        if n == 0 {
            proof {
                assert(final(self).chunks_view() =~= old(self).chunks_view() + events_chunks(
                    events@,
                ));
            }
            return ;
        }
        let is_addition = match events[0].kind {
            ChunkStoreDiffKind::Addition => true,
            ChunkStoreDiffKind::Deletion => false,
        };
        if is_addition {
            let ghost cs = events_chunks(events@);
            let mut i: usize = 0;
            proof {
                assert(cs.take(0) =~= Seq::<ChunkView>::empty());
                assert(self.chunks_view() + cs.take(0) =~= self.chunks_view());
            }
            while i < n
                invariant
                    i <= n,
                    n == events@.len(),
                    cs == events_chunks(events@),
                    self.chunks_view() == old(self).chunks_view() + cs.take(i as int),
                decreases n - i,
            {
                let ghost before = self.chunks_view();
                let c = events[i].chunk.clone();
                self.chunks.push(c);
                proof {
                    assert(self.chunks_view() =~= before.push(cs[i as int]));
                    assert(cs.take(i as int + 1) =~= cs.take(i as int).push(cs[i as int]));
                    assert(old(self).chunks_view() + cs.take(i as int + 1) =~= (old(
                        self,
                    ).chunks_view() + cs.take(i as int)).push(cs[i as int]));
                }
                i = i + 1;
            }
            proof {
                assert(cs.take(n as int) =~= cs);
            }
        } else {
            let ghost ids = events_ids(events@);
            let ghost orig = self.chunks_view();
            let m = self.chunks.len();
            let mut kept: Vec<Chunk> = Vec::new();
            let mut i: usize = 0;
            proof {
                assert(orig.take(0) =~= Seq::<ChunkView>::empty());
                assert(seq_filter(orig.take(0), chunk_id_not_in(ids))
                    =~= Seq::<ChunkView>::empty());
                assert(kept@.map_values(|c: Chunk| c@) =~= Seq::<ChunkView>::empty());
            }
            while i < m
                invariant
                    i <= m,
                    m == self.chunks.len(),
                    orig == self.chunks_view(),
                    ids == events_ids(events@),
                    kept@.map_values(|c: Chunk| c@) == seq_filter(
                        orig.take(i as int),
                        chunk_id_not_in(ids),
                    ),
                decreases m - i,
            {
                proof {
                    assert(orig[i as int] == self.chunks@[i as int]@);
                    assert(orig.take(i as int + 1) =~= orig.take(i as int).push(orig[i as int]));
                    lemma_seq_filter_push(orig.take(i as int), orig[i as int], chunk_id_not_in(ids));
                }
                let ghost kept_before = kept@.map_values(|c: Chunk| c@);
                if !id_among(&events, self.chunks[i].id) {
                    kept.push(self.chunks[i].clone());
                    proof {
                        assert(kept@.map_values(|c: Chunk| c@) =~= kept_before.push(
                            orig[i as int],
                        ));
                    }
                }
                i = i + 1;
            }
            self.chunks = kept;
            proof {
                assert(orig.take(m as int) =~= orig);
            }
        }
    }
}

/// Whether any event names this chunk id.
fn id_among(events: &Vec<ChunkStoreEvent>, id: ChunkId) -> (r: bool)
    ensures
        r == events_ids(events@).contains(id),
{
    let n = events.len();
    let mut i: usize = 0;
    while i < n
        invariant
            i <= n,
            n == events@.len(),
            forall|j: int| 0 <= j < i ==> events_ids(events@)[j] != id,
        decreases n - i,
    {
        proof {
            assert(events_ids(events@)[i as int] == events@[i as int]@.chunk.id);
        }
        if events[i].chunk.id == id {
            proof {
                assert(events_ids(events@)[i as int] == id);
            }
            return true;
        }
        i = i + 1;
    }
    proof {
        if events_ids(events@).contains(id) {
            let j = choose|j: int|
                0 <= j < events_ids(events@).len() && events_ids(events@)[j] == id;
        }
    }
    false
}

} // verus!

use crate::times::index_in_timelines;
use crate::tree::index_in_components;

verus! {

/// The key of a latest-at candidate.
pub open spec fn cand_key(c: (bool, i64, RowId, Seq<u8>)) -> (bool, i64, RowId) {
    (c.0, c.1, c.2)
}

impl Caches {
    /// The latest value of one component of one entity, read from the
    /// mirrored chunks: the best candidate under [`key_better`] — static
    /// data first, then the latest time at or before the query, then the
    /// greatest row id — or `None` when nothing qualifies. Malformed or
    /// absent data yields `None` rather than an error: a missing value must
    /// not abort a broader read.
    pub fn latest_at_component(
        &self,
        entity_path: &EntityPath,
        component: &String,
        query: &LatestAtQuery,
    ) -> (r: Option<LatestAtResult>)
        requires
            forall|i: int| 0 <= i < self.chunks_view().len() ==> (#[trigger] self.chunks_view()[i]).wf(),
        ensures
            ({
                let chunks = self.chunks_view();
                let e = entity_path@;
                let comp = component@;
                let tl = query.timeline@;
                let at = query.at;
                match r {
                    Some(res) => (exists|ci: int, ri: int|
                        cand_at(chunks, e, comp, tl, at, ci, ri) == Some(
                            (res.is_static, res.time, res.row_id, res.value@),
                        )) && forall|ci: int, ri: int|
                        (#[trigger] cand_at(chunks, e, comp, tl, at, ci, ri)) is Some
                            ==> !key_better(
                            cand_key(cand_at(chunks, e, comp, tl, at, ci, ri)->0),
                            (res.is_static, res.time, res.row_id),
                        ),
                    None => forall|ci: int, ri: int|
                        (#[trigger] cand_at(chunks, e, comp, tl, at, ci, ri)) is None,
                }
            }),
    {
        let ghost chunks = self.chunks_view();
        let ghost e = entity_path@;
        let ghost comp = component@;
        let ghost tl = query.timeline@;
        let at = query.at;
        let mut best: Option<LatestAtResult> = None;
        let ghost mut wci: int = 0;
        let ghost mut wri: int = 0;
        let n = self.chunks.len();
        let mut ci: usize = 0;
        while ci < n
            invariant
                ci <= n,
                n == self.chunks.len(),
                chunks == self.chunks_view(),
                e == entity_path@,
                comp == component@,
                tl == query.timeline@,
                forall|i: int| 0 <= i < chunks.len() ==> (#[trigger] chunks[i]).wf(),
                match best {
                    Some(res) => cand_at(chunks, e, comp, tl, at, wci, wri) == Some(
                        (res.is_static, res.time, res.row_id, res.value@),
                    ) && forall|ci2: int, ri2: int|
                        ci2 < ci && (#[trigger] cand_at(chunks, e, comp, tl, at, ci2, ri2))
                            is Some ==> !key_better(
                            cand_key(cand_at(chunks, e, comp, tl, at, ci2, ri2)->0),
                            (res.is_static, res.time, res.row_id),
                        ),
                    None => forall|ci2: int, ri2: int|
                        ci2 < ci ==> (#[trigger] cand_at(chunks, e, comp, tl, at, ci2, ri2))
                            is None,
                },
            decreases n - ci,
        {
            let c = &self.chunks[ci];
            proof {
                assert(c@ == chunks[ci as int]);
            }
            if c.entity_path.eq(entity_path) {
                if let Some(ck) = c.component_index(component) {
                    proof {
                        let ckk = index_in_components(c@, comp);
                        assert(ckk == ck as int);
                    }
                    let tk_opt = if c.timelines.len() == 0 {
                        None
                    } else {
                        c.timeline_index(&query.timeline)
                    };
                    proof {
                        if c@.timelines.contains(tl) {
                            let tkk = index_in_timelines(c@, tl);
                        }
                    }
                    let nr = c.rows.len();
                    let mut ri: usize = 0;
                    while ri < nr
                        invariant
                            ri <= nr,
                            ci < n,
                            n == self.chunks.len(),
                            nr == c.rows.len(),
                            c == &self.chunks[ci as int],
                            c@ == chunks[ci as int],
                            chunks == self.chunks_view(),
                            e == entity_path@,
                            comp == component@,
                            tl == query.timeline@,
                            c@.entity_path == e,
                            c@.wf(),
                            ck < c@.components.len(),
                            c@.components[ck as int] == comp,
                            index_in(c@.components, comp) == ck as int,
                            forall|i: int| 0 <= i < chunks.len() ==> (#[trigger] chunks[i]).wf(),
                            match tk_opt {
                                Some(tk) => tk < c@.timelines.len() && c@.timelines[tk as int]
                                    == tl && index_in(c@.timelines, tl) == tk as int,
                                None => !c@.timelines.contains(tl),
                            },
                            match best {
                                Some(res) => cand_at(chunks, e, comp, tl, at, wci, wri) == Some(
                                    (res.is_static, res.time, res.row_id, res.value@),
                                ) && forall|ci2: int, ri2: int|
                                    (ci2 < ci || (ci2 == ci && ri2 < ri)) && (
                                    #[trigger] cand_at(chunks, e, comp, tl, at, ci2, ri2))
                                        is Some ==> !key_better(
                                        cand_key(cand_at(chunks, e, comp, tl, at, ci2, ri2)->0),
                                        (res.is_static, res.time, res.row_id),
                                    ),
                                None => forall|ci2: int, ri2: int|
                                    ci2 < ci || (ci2 == ci && ri2 < ri) ==> (
                                    #[trigger] cand_at(chunks, e, comp, tl, at, ci2, ri2))
                                        is None,
                            },
                        decreases nr - ri,
                    {
                        proof {
                            assert(c@.rows[ri as int] == c.rows@[ri as int]@);
                            assert(c@.rows[ri as int].values.len() == c@.components.len());
                            assert(c@.rows[ri as int].times.len() == c@.timelines.len());
                        }
                        let row = &c.rows[ri];
                        let rid = row.row_id;
                        let cand: Option<(bool, i64)> = match &row.values[ck] {
                            Some(_) => {
                                if c.timelines.len() == 0 {
                                    Some((true, 0))
                                } else {
                                    match tk_opt {
                                        Some(tk) => {
                                            let t = row.times[tk];
                                            if t <= at {
                                                Some((false, t))
                                            } else {
                                                None
                                            }
                                        },
                                        None => None,
                                    }
                                }
                            },
                            None => None,
                        };
                        proof {
                            match cand {
                                Some(k) => {
                                    assert(cand_at(chunks, e, comp, tl, at, ci as int, ri as int)
                                        is Some);
                                    let ca = cand_at(
                                        chunks,
                                        e,
                                        comp,
                                        tl,
                                        at,
                                        ci as int,
                                        ri as int,
                                    )->Some_0;
                                    assert(ca.0 == k.0);
                                    assert(ca.1 == k.1);
                                    assert(ca.2 == rid);
                                },
                                None => {
                                    assert(cand_at(chunks, e, comp, tl, at, ci as int, ri as int)
                                        is None);
                                },
                            }
                        }
                        if let Some((cs, ct)) = cand {
                            let replace = match &best {
                                None => true,
                                Some(res) => (cs && !res.is_static) || (cs == res.is_static && (ct
                                    > res.time || (ct == res.time && res.row_id.lt(&rid)))),
                            };
                            proof {
                                match &best {
                                    Some(res) => {
                                        assert(replace == key_better(
                                            (cs, ct, rid),
                                            (res.is_static, res.time, res.row_id),
                                        ));
                                    },
                                    None => {},
                                }
                            }
                            if replace {
                                let ghost old_best = best;
                                let value = match &row.values[ck] {
                                    Some(v) => v.clone(),
                                    None => {
                                        return vstd::pervasive::unreached();
                                    },
                                };
                                proof {
                                    let ca = cand_at(
                                        chunks,
                                        e,
                                        comp,
                                        tl,
                                        at,
                                        ci as int,
                                        ri as int,
                                    )->Some_0;
                                    assert(value@ == ca.3);
                                }
                                best = Some(
                                    LatestAtResult { is_static: cs, time: ct, row_id: rid, value },
                                );
                                proof {
                                    wci = ci as int;
                                    wri = ri as int;
                                    let bk = (cs, ct, rid);
                                    assert forall|ci2: int, ri2: int|
                                        (ci2 < ci || (ci2 == ci && ri2 < ri + 1)) && (
                                        #[trigger] cand_at(chunks, e, comp, tl, at, ci2, ri2))
                                            is Some implies !key_better(
                                            cand_key(cand_at(chunks, e, comp, tl, at, ci2, ri2)->0),
                                            bk,
                                        ) by {
                                        let k2 = cand_key(
                                            cand_at(chunks, e, comp, tl, at, ci2, ri2)->0,
                                        );
                                        if ci2 == ci as int && ri2 == ri as int {
                                            assert(k2 == bk);
                                        } else {
                                            match &old_best {
                                                Some(res) => {
                                                    let ok = (
                                                        res.is_static,
                                                        res.time,
                                                        res.row_id,
                                                    );
                                                    assert(!key_better(k2, ok));
                                                    assert(key_better(bk, ok));
                                                    if key_better(k2, bk) {
                                                        lemma_key_better_trans(k2, bk, ok);
                                                    }
                                                },
                                                None => {},
                                            }
                                        }
                                    }
                                }
                            } else {
                                proof {
                                    match &best {
                                        Some(res) => {
                                            assert(!key_better(
                                                (cs, ct, rid),
                                                (res.is_static, res.time, res.row_id),
                                            ));
                                        },
                                        None => {},
                                    }
                                }
                            }
                        }
                        ri = ri + 1;
                    }
                    proof {
                        assert forall|ci2: int, ri2: int|
                            ci2 < ci + 1 implies (ci2 < ci as int || (ci2 == ci as int && ri2
                            < nr as int)) || (#[trigger] cand_at(chunks, e, comp, tl, at, ci2, ri2))
                            is None by {
                            if ci2 == ci as int && ri2 >= nr as int {
                                assert(cand_at(chunks, e, comp, tl, at, ci2, ri2) is None);
                            }
                        }
                    }
                } else {
                    proof {
                        assert forall|ri2: int| (#[trigger] cand_at(
                            chunks,
                            e,
                            comp,
                            tl,
                            at,
                            ci as int,
                            ri2,
                        )) is None by {}
                    }
                }
            } else {
                proof {
                    assert forall|ri2: int| (#[trigger] cand_at(
                        chunks,
                        e,
                        comp,
                        tl,
                        at,
                        ci as int,
                        ri2,
                    )) is None by {}
                }
            }
            ci = ci + 1;
        }
        proof {
            match &best {
                Some(res) => {
                    assert(cand_at(chunks, e, comp, tl, at, wci, wri) == Some(
                        (res.is_static, res.time, res.row_id, res.value@),
                    ));
                },
                None => {
                    assert forall|ci2: int, ri2: int| (#[trigger] cand_at(
                        chunks,
                        e,
                        comp,
                        tl,
                        at,
                        ci2,
                        ri2,
                    )) is None by {
                        if 0 <= ci2 < chunks.len() {
                            assert(ci2 < n as int);
                        }
                    }
                },
            }
        }
        best
    }
}

} // verus!
