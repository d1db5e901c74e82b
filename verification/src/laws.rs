//! The library's cross-cutting guarantees, stated and proved once.

use vstd::prelude::*;

use crate::chunk::{rows_max_row_id, ChunkView};
use crate::db::{
    add_chunk_ok, combine_latest, exported_chunks, in_selection, EntityDb,
};
use crate::ids::RowId;
use crate::path::{lemma_path_lt_total, path_is_ancestor_or_equal, path_lt};
use crate::store::{chunk_protected, newer_count, protected_in};
use crate::sums::{
    lemma_seq_count_filter_le, lemma_seq_filter_all, lemma_seq_filter_membership,
    lemma_seq_sum_zero, seq_filter, seq_sum,
};
use crate::times::chunk_time_weight;
use crate::tree::{chunk_comp_static_weight, chunk_comp_temporal_weight, chunk_events_weight};

verus! {

/// Registration is order-independent: two strictly sorted path lists holding
/// the same paths are the same list. Whatever order chunks were added in,
/// the registry afterwards is the one sorted, deduplicated list of their
/// entity paths.
pub proof fn lemma_sorted_paths_unique(r1: Seq<Seq<Seq<char>>>, r2: Seq<Seq<Seq<char>>>)
    requires
        forall|i: int, j: int| 0 <= i < j < r1.len() ==> path_lt(#[trigger] r1[i], #[trigger] r1[j]),
        forall|i: int, j: int| 0 <= i < j < r2.len() ==> path_lt(#[trigger] r2[i], #[trigger] r2[j]),
        forall|q: Seq<Seq<char>>| r1.contains(q) <==> r2.contains(q),
    ensures
        r1 == r2,
    decreases r1.len(),
{
    if r1.len() == 0 {
        if r2.len() > 0 {
            assert(r2.contains(r2[0]));
            assert(r1.contains(r2[0]));
        }
        assert(r1 =~= r2);
    } else if r2.len() == 0 {
        assert(r1.contains(r1[0]));
        assert(r2.contains(r1[0]));
    } else {
        assert(r1.contains(r1[0]));
        assert(r2.contains(r1[0]));
        let j = choose|j: int| 0 <= j < r2.len() && r2[j] == r1[0];
        assert(r2.contains(r2[0]));
        assert(r1.contains(r2[0]));
        let k = choose|k: int| 0 <= k < r1.len() && r1[k] == r2[0];
        assert(r1[0] == r2[0]) by {
            if r1[0] != r2[0] {
                assert(j >= 1 && k >= 1);
                assert(path_lt(r2[0], r2[j]));
                assert(path_lt(r1[0], r1[k]));
                lemma_path_lt_total(r1[0], r2[0]);
            }
        }
        let t1 = r1.skip(1);
        let t2 = r2.skip(1);
        assert(forall|i: int| 0 <= i < t1.len() ==> #[trigger] t1[i] == r1[i + 1]);
        assert(forall|i: int| 0 <= i < t2.len() ==> #[trigger] t2[i] == r2[i + 1]);
        assert forall|q: Seq<Seq<char>>| t1.contains(q) <==> t2.contains(q) by {
            if t1.contains(q) {
                let m = choose|m: int| 0 <= m < t1.len() && t1[m] == q;
                assert(r1[m + 1] == q);
                assert(r1.contains(q));
                assert(r2.contains(q));
                let w = choose|w: int| 0 <= w < r2.len() && r2[w] == q;
                assert(w >= 1) by {
                    if w == 0 {
                        assert(path_lt(r1[0], r1[m + 1]));
                        lemma_path_lt_total(r1[0], r1[m + 1]);
                    }
                }
                assert(t2[w - 1] == q);
            }
            if t2.contains(q) {
                let m = choose|m: int| 0 <= m < t2.len() && t2[m] == q;
                assert(r2[m + 1] == q);
                assert(r2.contains(q));
                assert(r1.contains(q));
                let w = choose|w: int| 0 <= w < r1.len() && r1[w] == q;
                assert(w >= 1) by {
                    if w == 0 {
                        assert(path_lt(r2[0], r2[m + 1]));
                        lemma_path_lt_total(r2[0], r2[m + 1]);
                    }
                }
                assert(t1[w - 1] == q);
            }
        }
        assert forall|i: int, j: int| 0 <= i < j < t1.len() implies path_lt(
            #[trigger] t1[i],
            #[trigger] t1[j],
        ) by {
            assert(t1[i] == r1[i + 1] && t1[j] == r1[j + 1]);
        }
        assert forall|i: int, j: int| 0 <= i < j < t2.len() implies path_lt(
            #[trigger] t2[i],
            #[trigger] t2[j],
        ) by {
            assert(t2[i] == r2[i + 1] && t2[j] == r2[j + 1]);
        }
        lemma_sorted_paths_unique(t1, t2);
        assert forall|i: int| 0 <= i < r1.len() implies #[trigger] r1[i] == r2[i] by {
            if i > 0 {
                assert(r1[i] == t1[i - 1]);
                assert(r2[i] == t2[i - 1]);
            }
        }
        assert(r1 =~= r2);
    }
}

/// The latest row id after any run of insertions, folded left to right.
pub open spec fn latest_after(chunks: Seq<ChunkView>) -> Option<RowId>
    decreases chunks.len(),
{
    if chunks.len() == 0 {
        Option::None
    } else {
        Option::Some(
            combine_latest(latest_after(chunks.drop_last()), rows_max_row_id(chunks.last().rows)),
        )
    }
}

/// After inserting any sequence of chunks, the latest row id is exactly the
/// maximum row id across all of their row-id ranges; garbage collection
/// never changes it (its contract leaves the field untouched).
pub proof fn lemma_latest_row_id_is_max(chunks: Seq<ChunkView>)
    requires
        chunks.len() > 0,
    ensures
        latest_after(chunks) is Some,
        exists|i: int|
            0 <= i < chunks.len() && latest_after(chunks)->0 == rows_max_row_id(
                (#[trigger] chunks[i]).rows,
            ),
        forall|i: int|
            0 <= i < chunks.len() ==> !(latest_after(chunks)->0).spec_lt(
                rows_max_row_id((#[trigger] chunks[i]).rows),
            ),
    decreases chunks.len(),
{
    let m = latest_after(chunks)->0;
    let last_max = rows_max_row_id(chunks.last().rows);
    if chunks.len() == 1 {
        assert(m == last_max);
        assert(chunks[0] == chunks.last());
    } else {
        lemma_latest_row_id_is_max(chunks.drop_last());
        let pm = latest_after(chunks.drop_last())->0;
        assert(forall|i: int|
            0 <= i < chunks.len() - 1 ==> #[trigger] chunks.drop_last()[i] == chunks[i]);
        if pm.spec_lt(last_max) {
            assert(m == last_max);
            assert(chunks[chunks.len() - 1] == chunks.last());
        } else {
            assert(m == pm);
            let w = choose|w: int|
                0 <= w < chunks.drop_last().len() && pm == rows_max_row_id(
                    (#[trigger] chunks.drop_last()[w]).rows,
                );
            assert(chunks[w] == chunks.drop_last()[w]);
        }
        assert forall|i: int|
            0 <= i < chunks.len() implies !m.spec_lt(
            rows_max_row_id((#[trigger] chunks[i]).rows),
        ) by {
            if i < chunks.len() - 1 {
                assert(chunks.drop_last()[i] == chunks[i]);
                assert(!pm.spec_lt(rows_max_row_id(chunks.drop_last()[i].rows)));
            } else {
                assert(chunks[i] == chunks.last());
            }
        }
    }
}

/// Dropping everything but the protected chunks twice is the same as doing
/// it once: the second pass removes nothing, because every survivor of the
/// first pass is still protected among the survivors.
pub proof fn lemma_drop_all_but_latest_idempotent(chunks: Seq<ChunkView>, n: nat)
    ensures
        seq_filter(
            seq_filter(chunks, protected_in(chunks, n)),
            protected_in(seq_filter(chunks, protected_in(chunks, n)), n),
        ) == seq_filter(chunks, protected_in(chunks, n)),
{
    let kept = seq_filter(chunks, protected_in(chunks, n));
    lemma_seq_filter_membership(chunks, protected_in(chunks, n));
    assert forall|i: int| 0 <= i < kept.len() implies protected_in(kept, n)(
        #[trigger] kept[i],
    ) by {
        let c = kept[i];
        assert(chunk_protected(chunks, c, n));
        if !c.is_static() {
            let k = choose|k: int|
                0 <= k < c.timelines.len() && newer_count(chunks, c, c.timelines[k]) < n;
            lemma_seq_count_filter_le(
                chunks,
                protected_in(chunks, n),
                crate::store::newer_on(c, c.timelines[k]),
            );
            assert(newer_count(kept, c, c.timelines[k]) < n);
        }
    }
    lemma_seq_filter_all(kept, protected_in(kept, n));
}

/// Static data never reaches a timeline's range: with only static chunks in
/// the store, every timeline's time range is absent, because no row counts
/// toward any (timeline, time) pair.
pub proof fn lemma_static_only_yields_no_range(chunks: Seq<ChunkView>, tl: Seq<char>, t: i64)
    requires
        forall|i: int| 0 <= i < chunks.len() ==> (#[trigger] chunks[i]).is_static(),
    ensures
        seq_sum(chunks, chunk_time_weight(tl, t)) == 0,
{
    assert forall|i: int| 0 <= i < chunks.len() implies chunk_time_weight(tl, t)(
        #[trigger] chunks[i],
    ) == 0 by {
        assert(chunks[i].timelines.len() == 0);
        if chunks[i].timelines.contains(tl) {
            let k = choose|k: int|
                0 <= k < chunks[i].timelines.len() && chunks[i].timelines[k] == tl;
        }
    }
    lemma_seq_sum_zero(chunks, chunk_time_weight(tl, t));
}

/// A replay window of `None` keeps every chunk: exporting without a window
/// emits one data message per stored chunk, in order.
pub proof fn lemma_unfiltered_export_keeps_all(chunks: Seq<ChunkView>)
    ensures
        seq_filter(chunks, in_selection(Option::None)) == chunks,
{
    assert(forall|i: int| 0 <= i < chunks.len() ==> in_selection(Option::None)(#[trigger] chunks[i]));
    lemma_seq_filter_all(chunks, in_selection(Option::None));
}

/// Two coherent databases holding the same chunks answer every chunk-derived
/// question identically: same entity paths (in the same order), same
/// per-timeline counts at every time, same per-component counts, same event
/// histograms and the same total row count. This is what makes the export /
/// re-ingest round trip faithful: once the replayed database holds the same
/// chunk sequence, all derived views agree.
pub proof fn lemma_same_chunks_same_views(a: &EntityDb, b: &EntityDb)
    requires
        a.wf(),
        b.wf(),
        a.chunks() == b.chunks(),
    ensures
        a.entity_paths_view() == b.entity_paths_view(),
        forall|tl: Seq<char>, t: i64|
            #[trigger] seq_sum(a.chunks(), chunk_time_weight(tl, t)) == seq_sum(
                b.chunks(),
                chunk_time_weight(tl, t),
            ),
        forall|e: Seq<Seq<char>>, c: Seq<char>|
            #[trigger] seq_sum(a.chunks(), chunk_comp_static_weight(e, c)) == seq_sum(
                b.chunks(),
                chunk_comp_static_weight(e, c),
            ) && #[trigger] seq_sum(a.chunks(), chunk_comp_temporal_weight(e, c)) == seq_sum(
                b.chunks(),
                chunk_comp_temporal_weight(e, c),
            ),
        forall|tl: Seq<char>, t: i64|
            #[trigger] seq_sum(a.chunks(), chunk_events_weight(tl, t)) == seq_sum(
                b.chunks(),
                chunk_events_weight(tl, t),
            ),
        seq_sum(a.chunks(), crate::store::chunk_rows_weight()) == seq_sum(
            b.chunks(),
            crate::store::chunk_rows_weight(),
        ),
{
    crate::db::lemma_db_wf_registry(a);
    crate::db::lemma_db_wf_registry(b);
    assert forall|q: Seq<Seq<char>>|
        a.entity_paths_view().contains(q) <==> b.entity_paths_view().contains(q) by {}
    lemma_sorted_paths_unique(a.entity_paths_view(), b.entity_paths_view());
}

} // verus!

verus! {

/// Every logged entity is a known entity: a path held by the registry is an
/// ancestor-or-equal of a registered path, namely itself.
pub proof fn lemma_logged_entity_is_known(paths: Seq<Seq<Seq<char>>>, p: Seq<Seq<char>>)
    requires
        paths.contains(p),
    ensures
        exists|i: int|
            0 <= i < paths.len() && path_is_ancestor_or_equal(p, #[trigger] paths[i]),
{
    let w = choose|w: int| 0 <= w < paths.len() && paths[w] == p;
    assert(p =~= p.subrange(0, p.len() as int));
    assert(path_is_ancestor_or_equal(p, paths[w]));
}

} // verus!

verus! {

/// Replaying a chunk sequence step by step — each step an accepted insertion,
/// as `add` and `add_chunk` ensure — rebuilds exactly that sequence.
pub proof fn lemma_replay_rebuilds_chunks(states: Seq<EntityDb>, chunks: Seq<ChunkView>)
    requires
        states.len() == chunks.len() + 1,
        states[0].chunks() == Seq::<ChunkView>::empty(),
        forall|i: int|
            0 <= i < chunks.len() ==> add_chunk_ok(#[trigger] states[i], states[i + 1], chunks[i]),
    ensures
        states.last().chunks() == chunks,
    decreases chunks.len(),
{
    if chunks.len() == 0 {
        assert(states.last() == states[0]);
        assert(states.last().chunks() =~= chunks);
    } else {
        let st = states.drop_last();
        let ch = chunks.drop_last();
        assert(forall|i: int| 0 <= i < st.len() ==> #[trigger] st[i] == states[i]);
        assert(forall|i: int| 0 <= i < ch.len() ==> #[trigger] ch[i] == chunks[i]);
        assert forall|i: int| 0 <= i < ch.len() implies add_chunk_ok(
            #[trigger] st[i],
            st[i + 1],
            ch[i],
        ) by {
            assert(st[i] == states[i] && st[i + 1] == states[i + 1] && ch[i] == chunks[i]);
        }
        lemma_replay_rebuilds_chunks(st, ch);
        assert(st.last() == states[states.len() - 2]);
        assert(add_chunk_ok(
            states[states.len() - 2],
            states[states.len() - 1],
            chunks[chunks.len() - 1],
        ));
        assert(states.last().chunks() =~= chunks) by {
            assert(states.last().chunks() == st.last().chunks().push(chunks.last()));
        }
    }
}

/// The round-trip law: exporting a database without a window and feeding
/// every message back, in order and all accepted, reproduces it. The export
/// carries exactly the stored chunks (`to_messages`' contract plus
/// [`lemma_unfiltered_export_keeps_all`]); each accepted data message is one
/// `add_chunk_ok` step (`add`'s contract), so the replayed database holds the
/// same chunk sequence; and two coherent databases with equal chunks list the
/// same entity paths, the same counts at every (timeline, time) — hence the
/// same time range per timeline — and the same total row count.
pub proof fn lemma_round_trip(src: &EntityDb, states: Seq<EntityDb>, dst: &EntityDb)
    requires
        src.wf(),
        dst.wf(),
        states.len() == exported_chunks(src.chunks(), Option::None).len() + 1,
        states[0].chunks() == Seq::<ChunkView>::empty(),
        forall|i: int|
            0 <= i < exported_chunks(src.chunks(), Option::None).len() ==> add_chunk_ok(
                #[trigger] states[i],
                states[i + 1],
                exported_chunks(src.chunks(), Option::None)[i],
            ),
        *dst == states.last(),
    ensures
        dst.chunks() == src.chunks(),
        dst.entity_paths_view() == src.entity_paths_view(),
        forall|tl: Seq<char>, t: i64|
            #[trigger] seq_sum(dst.chunks(), chunk_time_weight(tl, t)) == seq_sum(
                src.chunks(),
                chunk_time_weight(tl, t),
            ),
        seq_sum(dst.chunks(), crate::store::chunk_rows_weight()) == seq_sum(
            src.chunks(),
            crate::store::chunk_rows_weight(),
        ),
{
    lemma_unfiltered_export_keeps_all(src.chunks());
    assert(exported_chunks(src.chunks(), Option::None) == src.chunks());
    lemma_replay_rebuilds_chunks(states, src.chunks());
    lemma_same_chunks_same_views(src, dst);
}

} // verus!
