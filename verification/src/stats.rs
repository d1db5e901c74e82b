//! Ingestion statistics: a rolling, capacity-bounded and time-windowed
//! history of end-to-end ingestion latencies.
//!
//! For every row inserted into its own store, the tracker measures the
//! wall-clock time between the row id's embedded creation time and "now".
//! Reading the average first flushes expired samples, and the minimum-sample
//! floor is zero, so the metric degrades to "unknown" once ingestion stops
//! instead of freezing on a stale number.
//! The measurement assumes the producer's and consumer's clocks agree, which
//! only holds when both run on the same machine.

use vstd::prelude::*;

use crate::chunk::RowView;
use crate::ids::StoreId;
use crate::store::ChunkStoreEvent;

verus! {

/// At most this many samples are kept; the oldest fall out first.
pub const MAX_SAMPLES: usize = 1024;

/// Samples older than this are flushed before the average is read.
pub const MAX_SAMPLE_AGE_NANOS: u64 = 1000000000;

/// The rolling history keeps the newest samples that fit.
pub open spec fn trim(s: Seq<(u64, u64)>) -> Seq<(u64, u64)> {
    if s.len() > MAX_SAMPLES {
        s.skip(s.len() - MAX_SAMPLES)
    } else {
        s
    }
}

/// The (now, latency) samples that a sequence of events adds for store
/// `sid` at wall-clock time `now`: one per row whose id was created at or
/// before `now`, in event and row order.
pub open spec fn event_samples(
    events: Seq<ChunkStoreEvent>,
    sid: crate::ids::StoreIdView,
    now: u64,
) -> Seq<(u64, u64)>
    decreases events.len(),
{
    if events.len() == 0 {
        Seq::<(u64, u64)>::empty()
    } else {
        (if events[0]@.store_id == sid {
            chunk_samples(events[0]@.chunk.rows, now)
        } else {
            Seq::<(u64, u64)>::empty()
        }) + event_samples(events.skip(1), sid, now)
    }
}

/// The samples one chunk's rows contribute at wall-clock time `now`.
pub open spec fn chunk_samples(rows: Seq<RowView>, now: u64) -> Seq<(u64, u64)>
    decreases rows.len(),
{
    if rows.len() == 0 {
        Seq::<(u64, u64)>::empty()
    } else {
        (if rows[0].row_id.nanos_since_epoch <= now {
            seq![(now, (now - rows[0].row_id.nanos_since_epoch) as u64)]
        } else {
            Seq::<(u64, u64)>::empty()
        }) + chunk_samples(rows.skip(1), now)
    }
}

/// Total latency over a sample window.
pub open spec fn samples_sum(s: Seq<(u64, u64)>) -> nat {
    crate::sums::seq_sum(s, |p: (u64, u64)| p.1 as nat)
}

/// Tracks the end-to-end ingestion latency of one store as a bounded,
/// time-windowed rolling history of samples.
pub struct IngestionStatistics {
    store_id: StoreId,
    samples: Vec<(u64, u64)>,
}

impl IngestionStatistics {
    /// The current (wall-clock time, latency) samples, oldest first, in
    /// nanoseconds.
    pub closed spec fn samples_view(&self) -> Seq<(u64, u64)> {
        self.samples@
    }

    pub closed spec fn id_view(&self) -> crate::ids::StoreIdView {
        self.store_id@
    }

    /// The history never outgrows its capacity.
    pub closed spec fn wf(&self) -> bool {
        self.samples@.len() <= MAX_SAMPLES
    }

    pub fn new(store_id: StoreId) -> (r: IngestionStatistics)
        ensures
            r.wf(),
            r.id_view() == store_id@,
            r.samples_view() =~= Seq::<(u64, u64)>::empty(),
    {
        IngestionStatistics { store_id, samples: Vec::new() }
    }

    /// Records one sample, dropping the oldest one if the history is full.
    fn add_sample(&mut self, now: u64, latency: u64)
        requires
            old(self).wf(),
        ensures
            final(self).wf(),
            final(self).id_view() == old(self).id_view(),
            final(self).samples_view() == trim(old(self).samples_view().push((now, latency))),
    {
        if self.samples.len() == MAX_SAMPLES {
            let ghost before = self.samples@;
            let _ = self.samples.remove(0);
            self.samples.push((now, latency));
            proof {
                assert(self.samples@ =~= before.push((now, latency)).skip(1));
                assert(trim(before.push((now, latency))) =~= before.push((now, latency)).skip(1));
            }
        } else {
            self.samples.push((now, latency));
        }
    }

    /// Records the latency of one freshly ingested row id, when the clock
    /// has not run backwards past its creation time.
    fn on_new_row_id(&mut self, row_id: crate::ids::RowId, now: u64)
        requires
            old(self).wf(),
        ensures
            final(self).wf(),
            final(self).id_view() == old(self).id_view(),
            final(self).samples_view() == if row_id.nanos_since_epoch <= now {
                trim(old(self).samples_view().push((now, (now - row_id.nanos_since_epoch) as u64)))
            } else {
                old(self).samples_view()
            },
    {
        if row_id.nanos_since_epoch <= now {
            self.add_sample(now, now - row_id.nanos_since_epoch);
        }
    }

    /// The single mutation entrypoint: records one latency sample per row of
    /// every event belonging to this store, as of wall-clock time `now`.
    pub fn on_events_at(&mut self, events: &Vec<ChunkStoreEvent>, now: u64)
        requires
            old(self).wf(),
        ensures
            final(self).wf(),
            final(self).id_view() == old(self).id_view(),
            final(self).samples_view() == fold_samples(
                old(self).samples_view(),
                event_samples(events@, old(self).id_view(), now),
            ),
    {
        let ghost sid = self.store_id@;
        let ghost orig = self.samples@;
        let n = events.len();
        let mut i: usize = 0;
        proof {
            assert(events@.skip(0) =~= events@);
        }
        while i < n
            invariant
                i <= n,
                n == events@.len(),
                self.wf(),
                self.id_view() == sid,
                orig == old(self).samples_view(),
                fold_samples(orig, event_samples(events@, sid, now)) == fold_samples(
                    self.samples_view(),
                    event_samples(events@.skip(i as int), sid, now),
                ),
            decreases n - i,
        {
            proof {
                assert(events@.skip(i as int)[0] == events@[i as int]);
                assert(events@.skip(i as int).skip(1) =~= events@.skip(i as int + 1));
            }
            let ev = &events[i];
            if ev.store_id.eq(&self.store_id) {
                let nr = ev.chunk.rows.len();
                let ghost rows = ev.chunk@.rows;
                let mut r: usize = 0;
                proof {
                    assert(rows.skip(0) =~= rows);
                    lemma_fold_samples_concat(
                        self.samples_view(),
                        chunk_samples(rows, now),
                        event_samples(events@.skip(i as int + 1), sid, now),
                    );
                }
                while r < nr
                    invariant
                        r <= nr,
                        nr == ev.chunk.rows.len(),
                        rows == ev.chunk@.rows,
                        self.wf(),
                        self.id_view() == sid,
                        orig == old(self).samples_view(),
                        fold_samples(orig, event_samples(events@, sid, now)) == fold_samples(
                            fold_samples(self.samples_view(), chunk_samples(rows.skip(r as int), now)),
                            event_samples(events@.skip(i as int + 1), sid, now),
                        ),
                    decreases nr - r,
                {
                    proof {
                        assert(rows[r as int] == ev.chunk.rows@[r as int]@);
                        assert(rows.skip(r as int)[0] == rows[r as int]);
                        assert(rows.skip(r as int).skip(1) =~= rows.skip(r as int + 1));
                    }
                    let rid = ev.chunk.rows[r].row_id;
                    let ghost pre = self.samples_view();
                    self.on_new_row_id(rid, now);
                    proof {
                        let tail = chunk_samples(rows.skip(r as int + 1), now);
                        if rid.nanos_since_epoch <= now {
                            let smp = (now, (now - rid.nanos_since_epoch) as u64);
                            assert(chunk_samples(rows.skip(r as int), now) =~= seq![smp] + tail);
                            lemma_fold_samples_cons(pre, smp, tail);
                        } else {
                            assert(chunk_samples(rows.skip(r as int), now) =~= tail);
                        }
                    }
                    r = r + 1;
                }
                proof {
                    assert(rows.skip(nr as int) =~= Seq::<RowView>::empty());
                    assert(fold_samples(self.samples_view(), chunk_samples(rows.skip(nr as int), now))
                        == self.samples_view());
                }
            } else {
                proof {
                    assert(event_samples(events@.skip(i as int), sid, now) =~= event_samples(
                        events@.skip(i as int + 1),
                        sid,
                        now,
                    ));
                }
            }
            i = i + 1;
        }
        proof {
            assert(events@.skip(n as int) =~= Seq::<ChunkStoreEvent>::empty());
            assert(fold_samples(self.samples_view(), event_samples(events@.skip(n as int), sid, now))
                == self.samples_view());
        }
    }

    /// Drops every sample older than the window, as of wall-clock time `now`.
    fn flush(&mut self, now: u64)
        requires
            old(self).wf(),
        ensures
            final(self).wf(),
            final(self).id_view() == old(self).id_view(),
            exists|k: int|
                0 <= k <= old(self).samples_view().len() && final(self).samples_view() == old(
                    self,
                ).samples_view().skip(k) && (forall|j: int|
                    0 <= j < k ==> (#[trigger] old(self).samples_view()[j]).0 + MAX_SAMPLE_AGE_NANOS
                        < now),
            final(self).samples_view().len() > 0 ==> !(final(self).samples_view()[0].0
                + MAX_SAMPLE_AGE_NANOS < now),
    {
        let ghost orig = self.samples@;
        let ghost mut k: int = 0;
        proof {
            assert(orig.skip(0) =~= orig);
        }
        loop
            invariant
                0 <= k <= orig.len(),
                self.wf(),
                self.id_view() == old(self).id_view(),
                orig == old(self).samples_view(),
                self.samples_view() == orig.skip(k),
                forall|j: int| 0 <= j < k ==> (#[trigger] orig[j]).0 + MAX_SAMPLE_AGE_NANOS < now,
            decreases orig.len() - k,
        {
            if self.samples.len() == 0 {
                proof {
                    assert(self.samples_view().len() == 0);
                    assert(0 <= k <= old(self).samples_view().len() && self.samples_view() == old(
                        self,
                    ).samples_view().skip(k) && (forall|j: int|
                        0 <= j < k ==> (#[trigger] old(self).samples_view()[j]).0
                            + MAX_SAMPLE_AGE_NANOS < now));
                }
                return ;
            }
            let first = self.samples[0];
            proof {
                assert(first == orig.skip(k)[0]);
                assert(orig.skip(k)[0] == orig[k]);
            }
            if first.0 < now && now - first.0 > MAX_SAMPLE_AGE_NANOS {
                let ghost before = self.samples@;
                let _ = self.samples.remove(0);
                proof {
                    assert(self.samples@ =~= before.skip(1));
                    assert(orig.skip(k).skip(1) =~= orig.skip(k + 1));
                    k = k + 1;
                }
            } else {
                proof {
                    assert(0 <= k <= old(self).samples_view().len() && self.samples_view() == old(
                        self,
                    ).samples_view().skip(k) && (forall|j: int|
                        0 <= j < k ==> (#[trigger] old(self).samples_view()[j]).0
                            + MAX_SAMPLE_AGE_NANOS < now));
                }
                return ;
            }
        }
    }

    /// The mean end-to-end latency in nanoseconds over the still-valid
    /// window, as of wall-clock time `now`; `None` once every sample has
    /// expired (in particular, once ingestion has stopped for longer than the
    /// window). Flushes expired samples first.
    pub fn current_e2e_latency_nanos_at(&mut self, now: u64) -> (r: Option<u64>)
        requires
            old(self).wf(),
        ensures
            final(self).wf(),
            final(self).id_view() == old(self).id_view(),
            match r {
                Some(mean) => final(self).samples_view().len() > 0 && mean == samples_sum(
                    final(self).samples_view(),
                ) / final(self).samples_view().len(),
                None => final(self).samples_view().len() == 0,
            },
            (forall|j: int|
                0 <= j < old(self).samples_view().len() ==> (#[trigger] old(
                    self,
                ).samples_view()[j]).0 + MAX_SAMPLE_AGE_NANOS < now) ==> r is None,
            exists|k: int|
                0 <= k <= old(self).samples_view().len() && final(self).samples_view() == old(
                    self,
                ).samples_view().skip(k),
    {
        self.flush(now);
        proof {
            if forall|j: int|
                0 <= j < old(self).samples_view().len() ==> (#[trigger] old(
                    self,
                ).samples_view()[j]).0 + MAX_SAMPLE_AGE_NANOS < now {
                if self.samples_view().len() > 0 {
                    let k = choose|k: int|
                        0 <= k <= old(self).samples_view().len() && self.samples_view() == old(
                            self,
                        ).samples_view().skip(k);
                    assert(self.samples_view()[0] == old(self).samples_view()[k]);
                }
            }
        }
        self.average_nanos()
    }

    /// The mean latency of the current samples, without flushing.
    fn average_nanos(&self) -> (r: Option<u64>)
        ensures
            match r {
                Some(mean) => self.samples_view().len() > 0 && mean == samples_sum(
                    self.samples_view(),
                ) / self.samples_view().len(),
                None => self.samples_view().len() == 0,
            },
    {
        let n = self.samples.len();
        if n == 0 {
            return None;
        }
        let ghost w = |p: (u64, u64)| p.1 as nat;
        let mut sum: u128 = 0;
        let mut i: usize = 0;
        proof {
            assert(self.samples@.take(0) =~= Seq::<(u64, u64)>::empty());
        }
        while i < n
            invariant
                i <= n,
                n == self.samples@.len(),
                n == self.samples.len(),
                w == (|p: (u64, u64)| p.1 as nat),
                sum == crate::sums::seq_sum(self.samples@.take(i as int), w),
                sum <= (i as nat) * (u64::MAX as nat),
            decreases n - i,
        {
            proof {
                assert(self.samples@.take(i + 1) =~= self.samples@.take(i as int).push(
                    self.samples@[i as int],
                ));
                crate::sums::lemma_seq_sum_push(
                    self.samples@.take(i as int),
                    self.samples@[i as int],
                    w,
                );
                assert(sum + self.samples@[i as int].1 <= ((i + 1) as nat) * (u64::MAX as nat))
                    by (nonlinear_arith)
                    requires
                        sum <= (i as nat) * (u64::MAX as nat),
                        self.samples@[i as int].1 <= u64::MAX,
                ;
                assert(((i + 1) as nat) * (u64::MAX as nat) <= u128::MAX as nat)
                    by (nonlinear_arith)
                    requires
                        i + 1 <= 0x10000000000000000,
                ;
            }
            sum = sum + (self.samples[i].1 as u128);
            i = i + 1;
        }
        proof {
            assert(self.samples@.take(n as int) =~= self.samples@);
        }
        let mean = sum / (n as u128);
        proof {
            assert(sum <= (n as nat) * (u64::MAX as nat));
            assert(sum / (n as u128) <= u64::MAX) by (nonlinear_arith)
                requires
                    n > 0,
                    sum <= (n as nat) * (u64::MAX as nat),
            ;
        }
        Some(mean as u64)
    }
}

/// Samples folded one at a time onto a rolling history.
pub open spec fn fold_samples(base: Seq<(u64, u64)>, more: Seq<(u64, u64)>) -> Seq<(u64, u64)>
    decreases more.len(),
{
    if more.len() == 0 {
        base
    } else {
        fold_samples(trim(base.push(more[0])), more.skip(1))
    }
}

/// Folding a concatenation folds its parts in order.
pub proof fn lemma_fold_samples_concat(
    base: Seq<(u64, u64)>,
    a: Seq<(u64, u64)>,
    b: Seq<(u64, u64)>,
)
    ensures
        fold_samples(base, a + b) == fold_samples(fold_samples(base, a), b),
    decreases a.len(),
{
    if a.len() == 0 {
        assert(a + b =~= b);
    } else {
        assert((a + b)[0] == a[0]);
        assert((a + b).skip(1) =~= a.skip(1) + b);
        lemma_fold_samples_concat(trim(base.push(a[0])), a.skip(1), b);
    }
}

/// Folding one leading sample then the rest.
pub proof fn lemma_fold_samples_cons(base: Seq<(u64, u64)>, x: (u64, u64), rest: Seq<(u64, u64)>)
    ensures
        fold_samples(base, seq![x] + rest) == fold_samples(trim(base.push(x)), rest),
{
    let c = seq![x] + rest;
    assert(c[0] == x);
    assert(c.skip(1) =~= rest);
}

} // verus!
