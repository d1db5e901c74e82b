//! The global time index: for each timeline, which time values have data
//! anywhere in the store, with counts.
//!
//! A pure push-based subscriber: it mutates only through [`TimesPerTimeline::on_events`].

use vstd::prelude::*;

use crate::chunk::{row_time_is, Chunk, ChunkView, RowView};
use crate::ids::{ResolvedTimeRange, Timeline};
use crate::store::{ChunkStoreDiffKind, ChunkStoreEvent};
use crate::sums::{
    indicator, lemma_seq_count_push, lemma_seq_sum_insert, lemma_seq_sum_push,
    lemma_seq_sum_remove, lemma_seq_sum_skip_step, lemma_seq_sum_take_le, lemma_seq_sum_take_skip,
    lemma_seq_sum_zero, seq_count, seq_sum,
};

verus! {

/// Weight of one index entry towards the count at `(tl, t)`.
pub open spec fn entry_weight(tl: Seq<char>, t: i64) -> spec_fn((Seq<char>, i64, u64)) -> nat {
    |en: (Seq<char>, i64, u64)|
        if en.0 == tl && en.1 == t {
            en.2 as nat
        } else {
            0
        }
}

/// Weight of one chunk towards the count at `(tl, t)`.
pub open spec fn chunk_time_weight(tl: Seq<char>, t: i64) -> spec_fn(ChunkView) -> nat {
    |c: ChunkView| c.time_count(tl, t)
}

/// Timeline names of `tls` folded onto a registry, first occurrence first.
pub open spec fn register_names(names: Seq<Seq<char>>, tls: Seq<Seq<char>>) -> Seq<Seq<char>>
    decreases tls.len(),
{
    if tls.len() == 0 {
        names
    } else {
        register_names(
            if names.contains(tls[0]) {
                names
            } else {
                names.push(tls[0])
            },
            tls.skip(1),
        )
    }
}

/// Timeline names of a sequence of chunks folded onto a registry.
pub open spec fn register_chunks(names: Seq<Seq<char>>, chunks: Seq<ChunkView>) -> Seq<Seq<char>>
    decreases chunks.len(),
{
    if chunks.len() == 0 {
        names
    } else {
        register_chunks(register_names(names, chunks[0].timelines), chunks.skip(1))
    }
}

/// The per-timeline record of which time values currently have data, with
/// counts, plus the registry of every timeline ever seen.
pub struct TimesPerTimeline {
    timelines: Vec<Timeline>,
    counts: Vec<(Timeline, i64, u64)>,
}

impl TimesPerTimeline {
    /// Names of every timeline ever seen, in order of first appearance.
    pub closed spec fn timeline_names(&self) -> Seq<Seq<char>> {
        self.timelines@.map_values(|t: Timeline| t@)
    }

    /// The current (timeline, time, count) entries.
    pub closed spec fn entries(&self) -> Seq<(Seq<char>, i64, u64)> {
        self.counts@.map_values(|e: (Timeline, i64, u64)| (e.0@, e.1, e.2))
    }

    /// How many rows currently sit at time `t` on timeline `tl`.
    pub open spec fn count_of(&self, tl: Seq<char>, t: i64) -> nat {
        seq_sum(self.entries(), entry_weight(tl, t))
    }

    /// Internal coherence: (timeline, time) keys are unique, counts are
    /// positive, timeline names are unique, and every entry's timeline is
    /// registered.
    pub closed spec fn wf(&self) -> bool {
        &&& forall|i: int, j: int|
            0 <= i < j < self.entries().len() ==> ((#[trigger] self.entries()[i]).0, self.entries()[i].1)
                != ((#[trigger] self.entries()[j]).0, self.entries()[j].1)
        &&& forall|i: int| 0 <= i < self.entries().len() ==> (#[trigger] self.entries()[i]).2 >= 1
        &&& forall|i: int, j: int|
            0 <= i < j < self.timeline_names().len() ==> self.timeline_names()[i]
                != self.timeline_names()[j]
        &&& forall|i: int|
            0 <= i < self.entries().len() ==> self.timeline_names().contains(
                (#[trigger] self.entries()[i]).0,
            )
    }

    pub fn new() -> (r: TimesPerTimeline)
        ensures
            r.wf(),
            r.timeline_names() =~= Seq::<Seq<char>>::empty(),
            r.entries() =~= Seq::<(Seq<char>, i64, u64)>::empty(),
    {
        let r = TimesPerTimeline { timelines: Vec::new(), counts: Vec::new() };
        proof {
            assert(r.timeline_names() =~= Seq::<Seq<char>>::empty());
            assert(r.entries() =~= Seq::<(Seq<char>, i64, u64)>::empty());
        }
        r
    }

    /// Every timeline ever seen, in order of first appearance.
    pub fn timelines(&self) -> (r: &Vec<Timeline>)
        ensures
            r@.map_values(|t: Timeline| t@) == self.timeline_names(),
    {
        &self.timelines
    }

    /// At a matching entry, the whole count concentrates: all other entries
    /// weigh nothing there.
    proof fn lemma_count_at_index(&self, i: int, tl: Seq<char>, t: i64)
        requires
            self.wf(),
            0 <= i < self.entries().len(),
            self.entries()[i].0 == tl,
            self.entries()[i].1 == t,
        ensures
            self.count_of(tl, t) == self.entries()[i].2,
    {
        let es = self.entries();
        let w = entry_weight(tl, t);
        lemma_seq_sum_take_skip(es, i, w);
        lemma_seq_sum_skip_step(es, i, w);
        assert(forall|j: int| 0 <= j < i ==> #[trigger] es.take(i)[j] == es[j]);
        assert(forall|j: int|
            0 <= j < es.skip(i + 1).len() ==> #[trigger] es.skip(i + 1)[j] == es[j + i + 1]);
        lemma_seq_sum_zero(es.take(i), w);
        lemma_seq_sum_zero(es.skip(i + 1), w);
    }

    /// Where no entry matches, the count is zero.
    proof fn lemma_count_absent(&self, tl: Seq<char>, t: i64)
        requires
            forall|i: int|
                0 <= i < self.entries().len() ==> ((#[trigger] self.entries()[i]).0, self.entries()[i].1)
                    != (tl, t),
        ensures
            self.count_of(tl, t) == 0,
    {
        lemma_seq_sum_zero(self.entries(), entry_weight(tl, t));
    }

    /// Index of the entry keyed `(tl, t)`, if any.
    fn find_entry(&self, tl: &Timeline, t: i64) -> (r: Option<usize>)
        ensures
            match r {
                Some(i) => i < self.entries().len() && self.entries()[i as int].0 == tl@
                    && self.entries()[i as int].1 == t,
                None => forall|i: int|
                    0 <= i < self.entries().len() ==> ((#[trigger] self.entries()[i]).0, self.entries()[i].1)
                        != (tl@, t),
            },
    {
        let n = self.counts.len();
        let mut i: usize = 0;
        while i < n
            invariant
                i <= n,
                n == self.counts.len(),
                forall|j: int|
                    0 <= j < i ==> ((#[trigger] self.entries()[j]).0, self.entries()[j].1) != (
                    tl@,
                    t,
                ),
            decreases n - i,
        {
            proof {
                assert(self.entries()[i as int] == (self.counts@[i as int].0@, self.counts@[
                    i as int].1, self.counts@[i as int].2));
            }
            if self.counts[i].0.eq(tl) && self.counts[i].1 == t {
                return Some(i);
            }
            i = i + 1;
        }
        None
    }

    /// Records the timeline if it is new; the counts are untouched.
    pub(crate) fn register_timeline(&mut self, tl: &Timeline)
        requires
            old(self).wf(),
        ensures
            final(self).wf(),
            final(self).entries() == old(self).entries(),
            final(self).timeline_names() == if old(self).timeline_names().contains(tl@) {
                old(self).timeline_names()
            } else {
                old(self).timeline_names().push(tl@)
            },
    {
        let n = self.timelines.len();
        let mut i: usize = 0;
        while i < n
            invariant
                i <= n,
                n == self.timelines.len(),
                *self == *old(self),
                self.wf(),
                forall|j: int| 0 <= j < i ==> self.timeline_names()[j] != tl@,
            decreases n - i,
        {
            proof {
                assert(self.timeline_names()[i as int] == self.timelines@[i as int]@);
            }
            if self.timelines[i].eq(tl) {
                proof {
                    assert(self.timeline_names()[i as int] == tl@);
                    assert(self.timeline_names().contains(tl@));
                    assert(*self == *old(self));
                }
                return ;
            }
            i = i + 1;
        }
        proof {
            assert(!old(self).timeline_names().contains(tl@));
        }
        let ghost before = self.timeline_names();
        self.timelines.push(tl.clone());
        proof {
            assert(self.timeline_names() =~= before.push(tl@));
            assert(self.entries() =~= old(self).entries());
            assert forall|a: int, b: int|
                0 <= a < b < self.timeline_names().len() implies self.timeline_names()[a]
                != self.timeline_names()[b] by {
                if b == self.timeline_names().len() - 1 {
                    assert(self.timeline_names()[a] == before[a]);
                }
            }
            assert forall|i2: int| 0 <= i2 < self.entries().len() implies self.timeline_names()
                .contains((#[trigger] self.entries()[i2]).0) by {
                assert(before.contains(self.entries()[i2].0));
                let w = choose|w: int| 0 <= w < before.len() && before[w] == self.entries()[i2].0;
                assert(self.timeline_names()[w] == self.entries()[i2].0);
            }
        }
    }

    /// Raises the count at `(tl, t)` by `k`.
    pub(crate) fn bump(&mut self, tl: &Timeline, t: i64, k: u64)
        requires
            old(self).wf(),
            old(self).timeline_names().contains(tl@),
            k >= 1,
            old(self).count_of(tl@, t) + k <= u64::MAX,
        ensures
            final(self).wf(),
            final(self).timeline_names() == old(self).timeline_names(),
            forall|tl2: Seq<char>, t2: i64|
                #[trigger] final(self).count_of(tl2, t2) == old(self).count_of(tl2, t2) + if tl2
                    == tl@ && t2 == t {
                    k as nat
                } else {
                    0nat
                },
    {
        let ghost before = self.entries();
        match self.find_entry(tl, t) {
            Some(i) => {
                proof {
                    self.lemma_count_at_index(i as int, tl@, t);
                }
                let e = self.counts.remove(i);
                let ghost removed = self.entries();
                proof {
                    assert(removed =~= before.remove(i as int));
                }
                let new_count = e.2 + k;
                self.counts.insert(i, (e.0, e.1, new_count));
                proof {
                    assert(self.entries() =~= removed.insert(i as int, (tl@, t, new_count)));
                    assert forall|tl2: Seq<char>, t2: i64|
                        #[trigger] self.count_of(tl2, t2) == old(self).count_of(tl2, t2) + (if tl2
                            == tl@ && t2 == t {
                            k as nat
                        } else {
                            0nat
                        }) by {
                        let w = entry_weight(tl2, t2);
                        lemma_seq_sum_remove(before, i as int, w);
                        lemma_seq_sum_insert(removed, i as int, (tl@, t, new_count), w);
                    }
                    assert forall|a: int, b: int|
                        0 <= a < b < self.entries().len() implies ((#[trigger] self.entries()[a]).0, self.entries()[a].1)
                        != ((#[trigger] self.entries()[b]).0, self.entries()[b].1) by {
                        assert(self.entries()[a] == if a == i as int {
                            (tl@, t, new_count)
                        } else {
                            before[a]
                        });
                        assert(self.entries()[b] == if b == i as int {
                            (tl@, t, new_count)
                        } else {
                            before[b]
                        });
                    }
                }
            },
            None => {
                proof {
                    self.lemma_count_absent(tl@, t);
                }
                self.counts.push((tl.clone(), t, k));
                proof {
                    assert(self.entries() =~= before.push((tl@, t, k)));
                    assert forall|tl2: Seq<char>, t2: i64|
                        #[trigger] self.count_of(tl2, t2) == old(self).count_of(tl2, t2) + (if tl2
                            == tl@ && t2 == t {
                            k as nat
                        } else {
                            0nat
                        }) by {
                        let w = entry_weight(tl2, t2);
                        lemma_seq_sum_push(before, (tl@, t, k), w);
                    }
                    assert forall|a: int, b: int|
                        0 <= a < b < self.entries().len() implies ((#[trigger] self.entries()[a]).0, self.entries()[a].1)
                        != ((#[trigger] self.entries()[b]).0, self.entries()[b].1) by {
                        if b == self.entries().len() - 1 {
                            assert(self.entries()[a] == before[a]);
                        } else {
                            assert(self.entries()[a] == before[a]);
                            assert(self.entries()[b] == before[b]);
                        }
                    }
                }
            },
        }
    }

    /// Lowers the count at `(tl, t)` by `k`, dropping the entry at zero.
    pub(crate) fn drop_count(&mut self, tl: &Timeline, t: i64, k: u64)
        requires
            old(self).wf(),
            k >= 1,
            old(self).count_of(tl@, t) >= k,
        ensures
            final(self).wf(),
            final(self).timeline_names() == old(self).timeline_names(),
            forall|tl2: Seq<char>, t2: i64|
                #[trigger] final(self).count_of(tl2, t2) + (if tl2 == tl@ && t2 == t {
                    k as nat
                } else {
                    0nat
                }) == old(self).count_of(tl2, t2),
    {
        let ghost before = self.entries();
        match self.find_entry(tl, t) {
            Some(i) => {
                proof {
                    self.lemma_count_at_index(i as int, tl@, t);
                }
                let e = self.counts.remove(i);
                let ghost removed = self.entries();
                proof {
                    assert(removed =~= before.remove(i as int));
                }
                if e.2 > k {
                    let new_count = e.2 - k;
                    self.counts.insert(i, (e.0, e.1, new_count));
                    proof {
                        assert(self.entries() =~= removed.insert(i as int, (tl@, t, new_count)));
                        assert forall|tl2: Seq<char>, t2: i64|
                            #[trigger] self.count_of(tl2, t2) + (if tl2 == tl@ && t2 == t {
                                k as nat
                            } else {
                                0nat
                            }) == old(self).count_of(tl2, t2) by {
                            let w = entry_weight(tl2, t2);
                            lemma_seq_sum_remove(before, i as int, w);
                            lemma_seq_sum_insert(removed, i as int, (tl@, t, new_count), w);
                        }
                        assert forall|a: int, b: int|
                            0 <= a < b < self.entries().len() implies ((
                        #[trigger] self.entries()[a]).0, self.entries()[a].1) != ((
                        #[trigger] self.entries()[b]).0, self.entries()[b].1) by {
                            assert(self.entries()[a] == if a == i as int {
                                (tl@, t, new_count)
                            } else {
                                before[a]
                            });
                            assert(self.entries()[b] == if b == i as int {
                                (tl@, t, new_count)
                            } else {
                                before[b]
                            });
                        }
                    }
                } else {
                    proof {
                        assert(e.2 == k);
                        assert forall|tl2: Seq<char>, t2: i64|
                            #[trigger] self.count_of(tl2, t2) + (if tl2 == tl@ && t2 == t {
                                k as nat
                            } else {
                                0nat
                            }) == old(self).count_of(tl2, t2) by {
                            let w = entry_weight(tl2, t2);
                            lemma_seq_sum_remove(before, i as int, w);
                        }
                        assert forall|a: int, b: int|
                            0 <= a < b < self.entries().len() implies ((
                        #[trigger] self.entries()[a]).0, self.entries()[a].1) != ((
                        #[trigger] self.entries()[b]).0, self.entries()[b].1) by {
                            assert(self.entries()[a] == if a < i as int {
                                before[a]
                            } else {
                                before[a + 1]
                            });
                            assert(self.entries()[b] == if b < i as int {
                                before[b]
                            } else {
                                before[b + 1]
                            });
                        }
                    }
                }
            },
            None => {
                proof {
                    self.lemma_count_absent(tl@, t);
                    assert(false);
                }
            },
        }
    }
}

} // verus!

verus! {

/// The contribution of chunk `c` at `(tl, t)` counting only the timelines
/// before index `k`.
pub open spec fn time_count_upto(c: ChunkView, tl: Seq<char>, t: i64, k: int) -> nat {
    if c.timelines.take(k).contains(tl) {
        c.time_count(tl, t)
    } else {
        0
    }
}

/// What a registry contains after folding names onto it.
pub proof fn lemma_register_names_contains(names: Seq<Seq<char>>, tls: Seq<Seq<char>>)
    ensures
        forall|x: Seq<char>|
            register_names(names, tls).contains(x) <==> names.contains(x) || tls.contains(x),
    decreases tls.len(),
{
    if tls.len() == 0 {
    } else {
        let names2 = if names.contains(tls[0]) {
            names
        } else {
            names.push(tls[0])
        };
        lemma_register_names_contains(names2, tls.skip(1));
        assert(forall|j: int| 0 <= j < tls.skip(1).len() ==> #[trigger] tls.skip(1)[j] == tls[j + 1]);
        assert(register_names(names, tls) == register_names(names2, tls.skip(1)));
        assert forall|x: Seq<char>|
            register_names(names, tls).contains(x) implies names.contains(x) || tls.contains(
            x,
        ) by {
            assert(names2.contains(x) || tls.skip(1).contains(x));
            if names2.contains(x) {
                if !names.contains(x) {
                    let j = choose|j: int| 0 <= j < names2.len() && names2[j] == x;
                    if j < names.len() {
                        assert(names[j] == x);
                        assert(names.contains(x));
                    } else {
                        assert(x == tls[0]);
                        assert(tls.contains(x));
                    }
                }
            } else {
                let j = choose|j: int| 0 <= j < tls.skip(1).len() && tls.skip(1)[j] == x;
                assert(tls[j + 1] == x);
                assert(tls.contains(x));
            }
        }
        assert forall|x: Seq<char>|
            names.contains(x) || tls.contains(x) implies register_names(names, tls).contains(
            x,
        ) by {
            if names.contains(x) {
                if names2 != names {
                    let j = choose|j: int| 0 <= j < names.len() && names[j] == x;
                    assert(names2[j] == x);
                }
                assert(names2.contains(x));
            } else {
                let j = choose|j: int| 0 <= j < tls.len() && tls[j] == x;
                if j == 0 {
                    if names.contains(tls[0]) {
                        assert(names2.contains(x));
                    } else {
                        assert(names2[names.len() as int] == x);
                        assert(names2.contains(x));
                    }
                } else {
                    assert(tls.skip(1)[j - 1] == x);
                    assert(tls.skip(1).contains(x));
                }
            }
        }
    }
}

/// Folding one more name onto a registry registers it exactly when it is
/// still missing.
pub proof fn lemma_register_names_snoc(names: Seq<Seq<char>>, tls: Seq<Seq<char>>, x: Seq<char>)
    ensures
        register_names(names, tls.push(x)) == (if register_names(names, tls).contains(x) {
            register_names(names, tls)
        } else {
            register_names(names, tls).push(x)
        }),
    decreases tls.len(),
{
    if tls.len() == 0 {
        let pushed = tls.push(x);
        assert(pushed[0] == x);
        assert(pushed.skip(1) =~= Seq::<Seq<char>>::empty());
        let names2 = if names.contains(x) {
            names
        } else {
            names.push(x)
        };
        assert(register_names(names, pushed) == register_names(names2, pushed.skip(1)));
        assert(register_names(names2, pushed.skip(1)) == names2);
        assert(register_names(names, tls) == names);
    } else {
        let names2 = if names.contains(tls[0]) {
            names
        } else {
            names.push(tls[0])
        };
        assert(tls.push(x)[0] == tls[0]);
        assert(tls.push(x).skip(1) =~= tls.skip(1).push(x));
        lemma_register_names_snoc(names2, tls.skip(1), x);
    }
}

impl TimesPerTimeline {
    /// Folds one added chunk into the index: every row of every timeline of
    /// the chunk raises the count at its time by one, and the chunk's
    /// timelines are registered.
    pub(crate) fn apply_addition(&mut self, chunk: &Chunk)
        requires
            old(self).wf(),
            chunk@.wf(),
            forall|tl: Seq<char>, t: i64|
                old(self).count_of(tl, t) + chunk@.time_count(tl, t) <= u64::MAX,
        ensures
            final(self).wf(),
            final(self).timeline_names() == register_names(
                old(self).timeline_names(),
                chunk@.timelines,
            ),
            forall|tl: Seq<char>, t: i64|
                #[trigger] final(self).count_of(tl, t) == old(self).count_of(tl, t)
                    + chunk@.time_count(tl, t),
    {
        let ghost c = chunk@;
        let ghost orig = *old(self);
        let nt = chunk.timelines.len();
        let nr = chunk.rows.len();
        proof {
            assert(c.timelines.take(0) =~= Seq::<Seq<char>>::empty());
        }
        let mut k: usize = 0;
        while k < nt
            invariant
                k <= nt,
                nt == chunk.timelines.len(),
                nr == chunk.rows.len(),
                c == chunk@,
                c.wf(),
                self.wf(),
                forall|tl: Seq<char>, t: i64|
                    orig.count_of(tl, t) + c.time_count(tl, t) <= u64::MAX,
                self.timeline_names() == register_names(
                    orig.timeline_names(),
                    c.timelines.take(k as int),
                ),
                forall|tl: Seq<char>, t: i64|
                    #[trigger] self.count_of(tl, t) == orig.count_of(tl, t) + time_count_upto(
                        c,
                        tl,
                        t,
                        k as int,
                    ),
            decreases nt - k,
        {
            let tl_k = &chunk.timelines[k];
            proof {
                assert(c.timelines[k as int] == chunk.timelines@[k as int]@);
                assert(c.timelines.take(k as int + 1) =~= c.timelines.take(k as int).push(
                    c.timelines[k as int],
                ));
                lemma_register_names_snoc(
                    orig.timeline_names(),
                    c.timelines.take(k as int),
                    c.timelines[k as int],
                );
                lemma_register_names_contains(orig.timeline_names(), c.timelines.take(k as int));
            }
            let ghost pre = *self;
            self.register_timeline(tl_k);
            proof {
                assert(self.entries() == pre.entries());
                assert forall|tl: Seq<char>, t: i64|
                    #[trigger] self.count_of(tl, t) == orig.count_of(tl, t) + time_count_upto(
                        c,
                        tl,
                        t,
                        k as int,
                    ) by {
                    assert(self.count_of(tl, t) == pre.count_of(tl, t));
                }
                lemma_register_names_contains(
                    orig.timeline_names(),
                    c.timelines.take(k as int + 1),
                );
                assert(c.timelines.take(k as int + 1).contains(c.timelines[k as int])) by {
                    assert(c.timelines.take(k as int + 1)[k as int] == c.timelines[k as int]);
                }
                assert(self.timeline_names().contains(tl_k@));
                // the current timeline is new to the prefix, so nothing was
                // counted for it yet
                assert(!c.timelines.take(k as int).contains(c.timelines[k as int])) by {
                    let cur = c.timelines[k as int];
                    if c.timelines.take(k as int).contains(cur) {
                        let j = choose|j: int|
                            0 <= j < k as int && c.timelines.take(k as int)[j] == cur;
                        assert(c.timelines[j] == cur);
                    }
                }
                assert(c.rows.take(0) =~= Seq::<RowView>::empty());
            }
            let ghost names_after = self.timeline_names();
            let ghost base = *self;
            let mut r: usize = 0;
            while r < nr
                invariant
                    r <= nr,
                    nt == chunk.timelines.len(),
                    nr == chunk.rows.len(),
                    k < nt,
                    c == chunk@,
                    c.wf(),
                    self.wf(),
                    tl_k@ == c.timelines[k as int],
                    !c.timelines.take(k as int).contains(c.timelines[k as int]),
                    self.timeline_names() == base.timeline_names(),
                    self.timeline_names().contains(tl_k@),
                    forall|tl: Seq<char>, t: i64|
                        orig.count_of(tl, t) + c.time_count(tl, t) <= u64::MAX,
                    forall|tl: Seq<char>, t: i64|
                        #[trigger] base.count_of(tl, t) == orig.count_of(tl, t) + time_count_upto(
                            c,
                            tl,
                            t,
                            k as int,
                        ),
                    forall|tl: Seq<char>, t: i64|
                        #[trigger] self.count_of(tl, t) == base.count_of(tl, t) + (if tl
                            == c.timelines[k as int] {
                            seq_count(c.rows.take(r as int), row_time_is(k as int, t))
                        } else {
                            0nat
                        }),
                decreases nr - r,
            {
                proof {
                    assert(c.rows[r as int] == chunk.rows@[r as int]@);
                    assert(c.rows[r as int].times.len() == c.timelines.len());
                }
                let t = chunk.rows[r].times[k];
                proof {
                    let key_tl = c.timelines[k as int];
                    assert(c.timelines.contains(key_tl)) by {
                        assert(c.timelines[k as int] == key_tl);
                    }
                    let ki = index_in_timelines(c, key_tl);
                    assert(ki == k as int);
                    assert(c.time_count(key_tl, t) == seq_count(
                        c.rows,
                        row_time_is(k as int, t),
                    ));
                    assert(c.rows.take(r as int + 1) =~= c.rows.take(r as int).push(
                        c.rows[r as int],
                    ));
                    lemma_seq_count_push(
                        c.rows.take(r as int),
                        c.rows[r as int],
                        row_time_is(k as int, t),
                    );
                    assert(row_time_is(k as int, t)(c.rows[r as int]));
                    lemma_seq_sum_take_le(
                        c.rows,
                        r as int + 1,
                        indicator(row_time_is(k as int, t)),
                    );
                    assert(seq_count(c.rows.take(r as int), row_time_is(k as int, t)) + 1
                        <= c.time_count(key_tl, t));
                    assert(time_count_upto(c, key_tl, t, k as int) == 0);
                    assert(base.count_of(key_tl, t) == orig.count_of(key_tl, t));
                    assert(self.count_of(key_tl, t) + 1 <= u64::MAX);
                }
                self.bump(tl_k, t, 1);
                proof {
                    assert(c.rows.take(r as int + 1) =~= c.rows.take(r as int).push(
                        c.rows[r as int],
                    ));
                    assert forall|tl: Seq<char>, t2: i64|
                        #[trigger] self.count_of(tl, t2) == base.count_of(tl, t2) + (if tl
                            == c.timelines[k as int] {
                            seq_count(c.rows.take(r as int + 1), row_time_is(k as int, t2))
                        } else {
                            0nat
                        }) by {
                        if tl == c.timelines[k as int] {
                            lemma_seq_count_push(
                                c.rows.take(r as int),
                                c.rows[r as int],
                                row_time_is(k as int, t2),
                            );
                        }
                    }
                }
                r = r + 1;
            }
            proof {
                assert(c.rows.take(nr as int) =~= c.rows);
                assert forall|tl: Seq<char>, t: i64|
                    #[trigger] self.count_of(tl, t) == orig.count_of(tl, t) + time_count_upto(
                        c,
                        tl,
                        t,
                        k as int + 1,
                    ) by {
                    let key_tl = c.timelines[k as int];
                    if tl == key_tl {
                        assert(c.timelines.contains(key_tl)) by {
                            assert(c.timelines[k as int] == key_tl);
                        }
                        let ki = index_in_timelines(c, key_tl);
                        assert(c.time_count(tl, t) == seq_count(c.rows, row_time_is(k as int, t)));
                        assert(time_count_upto(c, tl, t, k as int) == 0);
                        assert(c.timelines.take(k as int + 1).contains(tl)) by {
                            assert(c.timelines.take(k as int + 1)[k as int] == tl);
                        }
                    } else {
                        assert(c.timelines.take(k as int + 1).contains(tl)
                            == c.timelines.take(k as int).contains(tl)) by {
                            if c.timelines.take(k as int + 1).contains(tl) {
                                let pre = c.timelines.take(k as int + 1);
                                let j = choose|j: int| 0 <= j < pre.len() && pre[j] == tl;
                                if j < k as int {
                                    assert(c.timelines.take(k as int)[j] == tl);
                                }
                            }
                            if c.timelines.take(k as int).contains(tl) {
                                let j = choose|j: int|
                                    0 <= j < k as int && c.timelines.take(k as int)[j] == tl;
                                assert(c.timelines.take(k as int + 1)[j] == tl);
                            }
                        }
                    }
                }
            }
            k = k + 1;
        }
        proof {
            assert(c.timelines.take(nt as int) =~= c.timelines);
            assert forall|tl: Seq<char>, t: i64|
                #[trigger] self.count_of(tl, t) == orig.count_of(tl, t) + c.time_count(tl, t) by {
                if !c.timelines.contains(tl) {
                    assert(time_count_upto(c, tl, t, nt as int) == 0);
                    assert(c.time_count(tl, t) == 0);
                }
            }
        }
    }
}

/// The unique position of a contained timeline, pinned through the chunk's
/// well-formedness.
pub proof fn index_in_timelines(c: ChunkView, tl: Seq<char>) -> (k: int)
    requires
        c.wf(),
        c.timelines.contains(tl),
    ensures
        0 <= k < c.timelines.len(),
        c.timelines[k] == tl,
        crate::chunk::index_in(c.timelines, tl) == k,
        forall|j: int| 0 <= j < c.timelines.len() && c.timelines[j] == tl ==> j == k,
{
    let k = crate::chunk::index_in(c.timelines, tl);
    assert(exists|i: int| 0 <= i < c.timelines.len() && c.timelines[i] == tl);
    k
}

} // verus!

verus! {

impl TimesPerTimeline {
    /// Folds one removed chunk out of the index: every row of every timeline
    /// of the chunk lowers the count at its time by one.
    pub(crate) fn apply_deletion(&mut self, chunk: &Chunk)
        requires
            old(self).wf(),
            chunk@.wf(),
            forall|tl: Seq<char>, t: i64|
                chunk@.time_count(tl, t) <= old(self).count_of(tl, t),
        ensures
            final(self).wf(),
            final(self).timeline_names() == old(self).timeline_names(),
            forall|tl: Seq<char>, t: i64|
                #[trigger] final(self).count_of(tl, t) + chunk@.time_count(tl, t) == old(
                    self,
                ).count_of(tl, t),
    {
        let ghost c = chunk@;
        let ghost orig = *old(self);
        let nt = chunk.timelines.len();
        let nr = chunk.rows.len();
        proof {
            assert(c.timelines.take(0) =~= Seq::<Seq<char>>::empty());
        }
        let mut k: usize = 0;
        while k < nt
            invariant
                k <= nt,
                nt == chunk.timelines.len(),
                nr == chunk.rows.len(),
                c == chunk@,
                c.wf(),
                self.wf(),
                forall|tl: Seq<char>, t: i64| c.time_count(tl, t) <= orig.count_of(tl, t),
                self.timeline_names() == orig.timeline_names(),
                forall|tl: Seq<char>, t: i64|
                    #[trigger] self.count_of(tl, t) + time_count_upto(c, tl, t, k as int) == orig.count_of(
                        tl,
                        t,
                    ),
            decreases nt - k,
        {
            let tl_k = &chunk.timelines[k];
            proof {
                assert(c.timelines[k as int] == chunk.timelines@[k as int]@);
                assert(!c.timelines.take(k as int).contains(c.timelines[k as int])) by {
                    let cur = c.timelines[k as int];
                    if c.timelines.take(k as int).contains(cur) {
                        let j = choose|j: int|
                            0 <= j < k as int && c.timelines.take(k as int)[j] == cur;
                        assert(c.timelines[j] == cur);
                    }
                }
                assert(c.rows.take(0) =~= Seq::<RowView>::empty());
            }
            let ghost base = *self;
            let mut r: usize = 0;
            while r < nr
                invariant
                    r <= nr,
                    nt == chunk.timelines.len(),
                    nr == chunk.rows.len(),
                    k < nt,
                    c == chunk@,
                    c.wf(),
                    self.wf(),
                    tl_k@ == c.timelines[k as int],
                    !c.timelines.take(k as int).contains(c.timelines[k as int]),
                    self.timeline_names() == base.timeline_names(),
                    forall|tl: Seq<char>, t: i64| c.time_count(tl, t) <= orig.count_of(tl, t),
                    forall|tl: Seq<char>, t: i64|
                        #[trigger] base.count_of(tl, t) + time_count_upto(c, tl, t, k as int)
                            == orig.count_of(tl, t),
                    forall|tl: Seq<char>, t: i64|
                        #[trigger] self.count_of(tl, t) + (if tl == c.timelines[k as int] {
                            seq_count(c.rows.take(r as int), row_time_is(k as int, t))
                        } else {
                            0nat
                        }) == base.count_of(tl, t),
                decreases nr - r,
            {
                proof {
                    assert(c.rows[r as int] == chunk.rows@[r as int]@);
                    assert(c.rows[r as int].times.len() == c.timelines.len());
                }
                let t = chunk.rows[r].times[k];
                proof {
                    let key_tl = c.timelines[k as int];
                    assert(c.timelines.contains(key_tl)) by {
                        assert(c.timelines[k as int] == key_tl);
                    }
                    let ki = index_in_timelines(c, key_tl);
                    assert(ki == k as int);
                    assert(c.time_count(key_tl, t) == seq_count(
                        c.rows,
                        row_time_is(k as int, t),
                    ));
                    assert(c.rows.take(r as int + 1) =~= c.rows.take(r as int).push(
                        c.rows[r as int],
                    ));
                    lemma_seq_count_push(
                        c.rows.take(r as int),
                        c.rows[r as int],
                        row_time_is(k as int, t),
                    );
                    assert(row_time_is(k as int, t)(c.rows[r as int]));
                    lemma_seq_sum_take_le(
                        c.rows,
                        r as int + 1,
                        indicator(row_time_is(k as int, t)),
                    );
                    assert(seq_count(c.rows.take(r as int), row_time_is(k as int, t)) + 1
                        <= c.time_count(key_tl, t));
                    assert(time_count_upto(c, key_tl, t, k as int) == 0);
                    assert(base.count_of(key_tl, t) == orig.count_of(key_tl, t));
                    assert(self.count_of(key_tl, t) >= 1);
                }
                self.drop_count(tl_k, t, 1);
                proof {
                    assert forall|tl: Seq<char>, t2: i64|
                        #[trigger] self.count_of(tl, t2) + (if tl == c.timelines[k as int] {
                            seq_count(c.rows.take(r as int + 1), row_time_is(k as int, t2))
                        } else {
                            0nat
                        }) == base.count_of(tl, t2) by {
                        if tl == c.timelines[k as int] {
                            assert(c.rows.take(r as int + 1) =~= c.rows.take(r as int).push(
                                c.rows[r as int],
                            ));
                            lemma_seq_count_push(
                                c.rows.take(r as int),
                                c.rows[r as int],
                                row_time_is(k as int, t2),
                            );
                        }
                    }
                }
                r = r + 1;
            }
            proof {
                assert(c.rows.take(nr as int) =~= c.rows);
                assert forall|tl: Seq<char>, t: i64|
                    #[trigger] self.count_of(tl, t) + time_count_upto(c, tl, t, k as int + 1)
                        == orig.count_of(tl, t) by {
                    let key_tl = c.timelines[k as int];
                    if tl == key_tl {
                        assert(c.timelines.contains(key_tl)) by {
                            assert(c.timelines[k as int] == key_tl);
                        }
                        let ki = index_in_timelines(c, key_tl);
                        assert(ki == k as int);
                        assert(c.time_count(tl, t) == seq_count(c.rows, row_time_is(k as int, t)));
                        assert(time_count_upto(c, tl, t, k as int) == 0);
                        assert(c.timelines.take(k as int + 1).contains(tl)) by {
                            assert(c.timelines.take(k as int + 1)[k as int] == tl);
                        }
                    } else {
                        assert(c.timelines.take(k as int + 1).contains(tl)
                            == c.timelines.take(k as int).contains(tl)) by {
                            if c.timelines.take(k as int + 1).contains(tl) {
                                let pre = c.timelines.take(k as int + 1);
                                let j = choose|j: int| 0 <= j < pre.len() && pre[j] == tl;
                                if j < k as int {
                                    assert(c.timelines.take(k as int)[j] == tl);
                                }
                            }
                            if c.timelines.take(k as int).contains(tl) {
                                let j = choose|j: int|
                                    0 <= j < k as int && c.timelines.take(k as int)[j] == tl;
                                assert(c.timelines.take(k as int + 1)[j] == tl);
                            }
                        }
                    }
                }
            }
            k = k + 1;
        }
        proof {
            assert(c.timelines.take(nt as int) =~= c.timelines);
            assert forall|tl: Seq<char>, t: i64|
                #[trigger] self.count_of(tl, t) + c.time_count(tl, t) == orig.count_of(tl, t) by {
                if !c.timelines.contains(tl) {
                    assert(time_count_upto(c, tl, t, nt as int) == 0);
                    assert(c.time_count(tl, t) == 0);
                }
            }
        }
    }
}

} // verus!

verus! {

/// The chunks carried by a sequence of store events, in order.
pub open spec fn events_chunks(events: Seq<ChunkStoreEvent>) -> Seq<ChunkView> {
    events.map_values(|e: ChunkStoreEvent| e@.chunk)
}

/// All events describe additions.
pub open spec fn all_additions(events: Seq<ChunkStoreEvent>) -> bool {
    forall|i: int|
        0 <= i < events.len() ==> (#[trigger] events[i])@.kind == ChunkStoreDiffKind::Addition
}

/// All events describe deletions.
pub open spec fn all_deletions(events: Seq<ChunkStoreEvent>) -> bool {
    forall|i: int|
        0 <= i < events.len() ==> (#[trigger] events[i])@.kind == ChunkStoreDiffKind::Deletion
}

/// All events carry well-formed chunks.
pub open spec fn events_wf(events: Seq<ChunkStoreEvent>) -> bool {
    forall|i: int| 0 <= i < events.len() ==> (#[trigger] events[i])@.chunk.wf()
}

impl TimesPerTimeline {
    /// The single mutation entrypoint: folds one store diff into the index.
    /// Additions raise counts and register timelines; deletions lower counts
    /// and leave the timeline registry as it is.
    pub fn on_events(&mut self, events: &Vec<ChunkStoreEvent>)
        requires
            old(self).wf(),
            events_wf(events@),
            all_additions(events@) || all_deletions(events@),
            all_additions(events@) && events@.len() > 0 ==> forall|tl: Seq<char>, t: i64|
                old(self).count_of(tl, t) + seq_sum(
                    events_chunks(events@),
                    chunk_time_weight(tl, t),
                ) <= u64::MAX,
            all_deletions(events@) ==> forall|tl: Seq<char>, t: i64|
                seq_sum(events_chunks(events@), chunk_time_weight(tl, t)) <= old(self).count_of(
                    tl,
                    t,
                ),
        ensures
            final(self).wf(),
            all_additions(events@) ==> final(self).timeline_names() == register_chunks(
                old(self).timeline_names(),
                events_chunks(events@),
            ) && forall|tl: Seq<char>, t: i64|
                #[trigger] final(self).count_of(tl, t) == old(self).count_of(tl, t) + seq_sum(
                    events_chunks(events@),
                    chunk_time_weight(tl, t),
                ),
            all_deletions(events@) && events@.len() > 0 ==> final(self).timeline_names() == old(
                self,
            ).timeline_names() && forall|tl: Seq<char>, t: i64|
                #[trigger] final(self).count_of(tl, t) + seq_sum(
                    events_chunks(events@),
                    chunk_time_weight(tl, t),
                ) == old(self).count_of(tl, t),
    {
        let ghost cs = events_chunks(events@);
        let ghost orig = *old(self);
        let n = events.len();
        let mut i: usize = 0;
        proof {
            assert(cs.take(0) =~= Seq::<ChunkView>::empty());
        }
        while i < n
            invariant
                i <= n,
                n == events@.len(),
                cs == events_chunks(events@),
                self.wf(),
                events_wf(events@),
                all_additions(events@) || all_deletions(events@),
                all_additions(events@) && n > 0 ==> forall|tl: Seq<char>, t: i64|
                    orig.count_of(tl, t) + seq_sum(cs, chunk_time_weight(tl, t)) <= u64::MAX,
                all_deletions(events@) ==> forall|tl: Seq<char>, t: i64|
                    seq_sum(cs, chunk_time_weight(tl, t)) <= orig.count_of(tl, t),
                all_additions(events@) ==> self.timeline_names() == register_chunks(
                    orig.timeline_names(),
                    cs.take(i as int),
                ) && forall|tl: Seq<char>, t: i64|
                    #[trigger] self.count_of(tl, t) == orig.count_of(tl, t) + seq_sum(
                        cs.take(i as int),
                        chunk_time_weight(tl, t),
                    ),
                all_deletions(events@) ==> self.timeline_names() == orig.timeline_names() && forall|
                    tl: Seq<char>,
                    t: i64,
                |
                    #[trigger] self.count_of(tl, t) + seq_sum(
                        cs.take(i as int),
                        chunk_time_weight(tl, t),
                    ) == orig.count_of(tl, t),
            decreases n - i,
        {
            let ev = &events[i];
            proof {
                assert(ev@.chunk == cs[i as int]);
                assert(ev@.chunk.wf());
                assert(cs.take(i as int + 1) =~= cs.take(i as int).push(cs[i as int]));
            }
            match ev.kind {
                ChunkStoreDiffKind::Addition => {
                    proof {
                        assert(all_additions(events@));
                        assert forall|tl: Seq<char>, t: i64|
                            self.count_of(tl, t) + ev.chunk@.time_count(tl, t)
                                <= u64::MAX by {
                            lemma_seq_sum_push(
                                cs.take(i as int),
                                cs[i as int],
                                chunk_time_weight(tl, t),
                            );
                            lemma_seq_sum_take_le(cs, i as int + 1, chunk_time_weight(tl, t));
                            assert(chunk_time_weight(tl, t)(cs[i as int]) == ev.chunk@.time_count(
                                tl,
                                t,
                            ));
                        }
                    }
                    let ghost pre = *self;
                    self.apply_addition(&ev.chunk);
                    proof {
                        assert forall|tl: Seq<char>, t: i64|
                            #[trigger] self.count_of(tl, t) == orig.count_of(tl, t) + seq_sum(
                                cs.take(i as int + 1),
                                chunk_time_weight(tl, t),
                            ) by {
                            lemma_seq_sum_push(
                                cs.take(i as int),
                                cs[i as int],
                                chunk_time_weight(tl, t),
                            );
                            assert(chunk_time_weight(tl, t)(cs[i as int]) == ev.chunk@.time_count(
                                tl,
                                t,
                            ));
                        }
                        assert(register_chunks(orig.timeline_names(), cs.take(i as int + 1))
                            == self.timeline_names()) by {
                            lemma_register_chunks_snoc(
                                orig.timeline_names(),
                                cs.take(i as int),
                                cs[i as int],
                            );
                        }
                    }
                },
                ChunkStoreDiffKind::Deletion => {
                    proof {
                        assert(all_deletions(events@));
                        assert forall|tl: Seq<char>, t: i64|
                            ev.chunk@.time_count(tl, t) <= self.count_of(tl, t) by {
                            lemma_seq_sum_push(
                                cs.take(i as int),
                                cs[i as int],
                                chunk_time_weight(tl, t),
                            );
                            lemma_seq_sum_take_le(cs, i as int + 1, chunk_time_weight(tl, t));
                            assert(chunk_time_weight(tl, t)(cs[i as int]) == ev.chunk@.time_count(
                                tl,
                                t,
                            ));
                        }
                    }
                    self.apply_deletion(&ev.chunk);
                    proof {
                        assert forall|tl: Seq<char>, t: i64|
                            #[trigger] self.count_of(tl, t) + seq_sum(
                                cs.take(i as int + 1),
                                chunk_time_weight(tl, t),
                            ) == orig.count_of(tl, t) by {
                            lemma_seq_sum_push(
                                cs.take(i as int),
                                cs[i as int],
                                chunk_time_weight(tl, t),
                            );
                            assert(chunk_time_weight(tl, t)(cs[i as int]) == ev.chunk@.time_count(
                                tl,
                                t,
                            ));
                        }
                    }
                },
            }
            i = i + 1;
        }
        proof {
            assert(cs.take(n as int) =~= cs);
        }
    }

    /// Whether any data currently sits anywhere on the given timeline.
    pub fn has_data_on(&self, tl: &Timeline) -> (r: bool)
        requires
            self.wf(),
        ensures
            r == exists|t: i64| self.count_of(tl@, t) > 0,
    {
        let n = self.counts.len();
        let mut i: usize = 0;
        while i < n
            invariant
                i <= n,
                n == self.counts.len(),
                self.wf(),
                forall|j: int| 0 <= j < i ==> (#[trigger] self.entries()[j]).0 != tl@,
            decreases n - i,
        {
            proof {
                assert(self.entries()[i as int] == (self.counts@[i as int].0@, self.counts@[
                    i as int].1, self.counts@[i as int].2));
            }
            if self.counts[i].0.eq(tl) {
                proof {
                    self.lemma_count_at_index(i as int, tl@, self.counts@[i as int].1);
                    assert(self.count_of(tl@, self.entries()[i as int].1) > 0);
                }
                return true;
            }
            i = i + 1;
        }
        proof {
            assert forall|t: i64| self.count_of(tl@, t) == 0 by {
                self.lemma_count_absent(tl@, t);
            }
        }
        false
    }

    /// The inclusive range of times with data on the given timeline, or
    /// `None` when it holds none.
    pub fn time_range(&self, tl: &Timeline) -> (r: Option<ResolvedTimeRange>)
        requires
            self.wf(),
        ensures
            match r {
                Some(rng) => self.count_of(tl@, rng.min) > 0 && self.count_of(tl@, rng.max) > 0
                    && forall|t: i64| self.count_of(tl@, t) > 0 ==> rng.min <= t <= rng.max,
                None => forall|t: i64| self.count_of(tl@, t) == 0,
            },
    {
        let n = self.counts.len();
        let mut found = false;
        let mut lo: i64 = 0;
        let mut hi: i64 = 0;
        let mut i: usize = 0;
        while i < n
            invariant
                i <= n,
                n == self.counts.len(),
                self.wf(),
                !found ==> forall|j: int| 0 <= j < i ==> (#[trigger] self.entries()[j]).0 != tl@,
                found ==> exists|j: int|
                    0 <= j < i && (#[trigger] self.entries()[j]).0 == tl@ && self.entries()[j].1
                        == lo,
                found ==> exists|j: int|
                    0 <= j < i && (#[trigger] self.entries()[j]).0 == tl@ && self.entries()[j].1
                        == hi,
                found ==> forall|j: int|
                    0 <= j < i && (#[trigger] self.entries()[j]).0 == tl@ ==> lo
                        <= self.entries()[j].1 <= hi,
            decreases n - i,
        {
            proof {
                assert(self.entries()[i as int] == (self.counts@[i as int].0@, self.counts@[
                    i as int].1, self.counts@[i as int].2));
            }
            if self.counts[i].0.eq(tl) {
                let t = self.counts[i].1;
                if !found {
                    found = true;
                    lo = t;
                    hi = t;
                } else {
                    if t < lo {
                        lo = t;
                    }
                    if t > hi {
                        hi = t;
                    }
                }
                proof {
                    assert(self.entries()[i as int].0 == tl@ && self.entries()[i as int].1 == t);
                }
            }
            i = i + 1;
        }
        if !found {
            proof {
                assert forall|t: i64| self.count_of(tl@, t) == 0 by {
                    self.lemma_count_absent(tl@, t);
                }
            }
            return None;
        }
        proof {
            let jl = choose|j: int|
                0 <= j < n && (#[trigger] self.entries()[j]).0 == tl@ && self.entries()[j].1 == lo;
            self.lemma_count_at_index(jl, tl@, lo);
            let jh = choose|j: int|
                0 <= j < n && (#[trigger] self.entries()[j]).0 == tl@ && self.entries()[j].1 == hi;
            self.lemma_count_at_index(jh, tl@, hi);
            assert forall|t: i64| self.count_of(tl@, t) > 0 implies lo <= t <= hi by {
                if !(exists|j: int|
                    0 <= j < n && (#[trigger] self.entries()[j]).0 == tl@ && self.entries()[j].1
                        == t)
                {
                    assert forall|j: int|
                        0 <= j < self.entries().len() implies ((#[trigger] self.entries()[j]).0, self.entries()[j].1)
                        != (tl@, t) by {}
                    self.lemma_count_absent(tl@, t);
                }
            }
        }
        Some(ResolvedTimeRange { min: lo, max: hi })
    }
}

/// Folding one more chunk onto a registry of chunk timelines.
pub proof fn lemma_register_chunks_snoc(
    names: Seq<Seq<char>>,
    chunks: Seq<ChunkView>,
    c: ChunkView,
)
    ensures
        register_chunks(names, chunks.push(c)) == register_names(
            register_chunks(names, chunks),
            c.timelines,
        ),
    decreases chunks.len(),
{
    if chunks.len() == 0 {
        let pushed = chunks.push(c);
        assert(pushed[0] == c);
        assert(pushed.skip(1) =~= Seq::<ChunkView>::empty());
        assert(register_chunks(names, pushed) == register_chunks(
            register_names(names, c.timelines),
            pushed.skip(1),
        ));
        assert(register_chunks(register_names(names, c.timelines), pushed.skip(1))
            == register_names(names, c.timelines));
        assert(register_chunks(names, chunks) == names);
    } else {
        let pushed = chunks.push(c);
        assert(pushed[0] == chunks[0]);
        assert(pushed.skip(1) =~= chunks.skip(1).push(c));
        lemma_register_chunks_snoc(register_names(names, chunks[0].timelines), chunks.skip(1), c);
    }
}

} // verus!

verus! {

impl TimesPerTimeline {
    /// The (time, count) pairs currently recorded for one timeline, in entry
    /// order: each pair's count is the count at its time, every time with a
    /// positive count appears exactly once, and nothing else appears.
    pub fn histogram_of(&self, tl: &Timeline) -> (r: Vec<(i64, u64)>)
        requires
            self.wf(),
        ensures
            forall|i: int|
                0 <= i < r@.len() ==> (#[trigger] r@[i]).1 == self.count_of(tl@, r@[i].0)
                    && r@[i].1 > 0,
            forall|i: int, j: int| 0 <= i < j < r@.len() ==> (#[trigger] r@[i]).0 != (
            #[trigger] r@[j]).0,
            forall|t: i64| self.count_of(tl@, t) > 0 ==> exists|i: int|
                0 <= i < r@.len() && (#[trigger] r@[i]).0 == t,
    {
        let n = self.counts.len();
        let mut out: Vec<(i64, u64)> = Vec::new();
        let ghost mut src: Seq<int> = Seq::empty();
        let mut i: usize = 0;
        while i < n
            invariant
                i <= n,
                n == self.counts.len(),
                self.wf(),
                src.len() == out@.len(),
                forall|m: int| 0 <= m < src.len() ==> 0 <= #[trigger] src[m] < i,
                forall|m: int|
                    0 <= m < src.len() ==> self.entries()[#[trigger] src[m]].0 == tl@,
                forall|m: int|
                    0 <= m < out@.len() ==> self.entries()[src[m]].1 == (#[trigger] out@[m]).0
                        && self.entries()[src[m]].2 == out@[m].1,
                forall|m1: int, m2: int| 0 <= m1 < m2 < src.len() ==> src[m1] < src[m2],
                forall|j: int|
                    0 <= j < i && (#[trigger] self.entries()[j]).0 == tl@ ==> exists|m: int|
                        0 <= m < out@.len() && (#[trigger] out@[m]).0 == self.entries()[j].1,
            decreases n - i,
        {
            proof {
                assert(self.entries()[i as int] == (self.counts@[i as int].0@, self.counts@[
                    i as int].1, self.counts@[i as int].2));
            }
            let ghost before = out@;
            if self.counts[i].0.eq(tl) {
                out.push((self.counts[i].1, self.counts[i].2));
                proof {
                    let ghost old_src = src;
                    src = src.push(i as int);
                    assert(out@[out@.len() - 1] == (self.entries()[i as int].1, self.entries()[
                        i as int].2));
                    assert(forall|m: int| 0 <= m < before.len() ==> #[trigger] out@[m] == before[m]);
                    assert(forall|m: int| 0 <= m < old_src.len() ==> #[trigger] src[m] == old_src[m]);
                    assert(src[src.len() - 1] == i as int);
                    assert forall|m: int| 0 <= m < src.len() implies 0 <= #[trigger] src[m] < i
                        + 1 by {
                        if m < src.len() - 1 {
                            assert(src[m] == old_src[m]);
                            assert(old_src[m] < i as int);
                        }
                    }
                    assert forall|m: int| 0 <= m < src.len() implies self.entries()[
                        #[trigger] src[m]].0 == tl@ by {
                        if m < src.len() - 1 {
                            assert(src[m] == old_src[m]);
                            assert(self.entries()[old_src[m]].0 == tl@);
                        }
                    }
                    assert forall|m: int| 0 <= m < out@.len() implies self.entries()[src[m]].1 == (
                    #[trigger] out@[m]).0 && self.entries()[src[m]].2 == out@[m].1 by {
                        if m < out@.len() - 1 {
                            assert(src[m] == old_src[m] && out@[m] == before[m]);
                            assert(self.entries()[old_src[m]].1 == before[m].0 && self.entries()[
                                old_src[m]].2 == before[m].1);
                        }
                    }
                    assert forall|m1: int, m2: int| 0 <= m1 < m2 < src.len() implies src[m1]
                        < src[m2] by {
                        if m2 == src.len() - 1 {
                            assert(src[m1] == old_src[m1]);
                            assert(old_src[m1] < i as int);
                        } else {
                            assert(src[m1] == old_src[m1] && src[m2] == old_src[m2]);
                            assert(old_src[m1] < old_src[m2]);
                        }
                    }
                    assert forall|j: int|
                        0 <= j < i + 1 && (#[trigger] self.entries()[j]).0 == tl@ implies exists|
                            m: int,
                        |
                            0 <= m < out@.len() && (#[trigger] out@[m]).0
                                == self.entries()[j].1 by {
                        if j < i {
                            let m = choose|m: int|
                                0 <= m < before.len() && (#[trigger] before[m]).0
                                    == self.entries()[j].1;
                            assert(out@[m] == before[m]);
                            assert(0 <= m < out@.len() && out@[m].0 == self.entries()[j].1);
                        } else {
                            let m = out@.len() - 1;
                            assert(0 <= m < out@.len() && out@[m].0 == self.entries()[j].1);
                        }
                    }
                }
            } else {
                proof {
                    assert(self.entries()[i as int].0 != tl@);
                    assert forall|j: int|
                        0 <= j < i + 1 && (#[trigger] self.entries()[j]).0 == tl@ implies exists|
                            m: int,
                        |
                            0 <= m < out@.len() && (#[trigger] out@[m]).0
                                == self.entries()[j].1 by {
                        let m = choose|m: int|
                            0 <= m < out@.len() && (#[trigger] out@[m]).0 == self.entries()[j].1;
                        assert(0 <= m < out@.len() && out@[m].0 == self.entries()[j].1);
                    }
                }
            }
            i = i + 1;
        }
        proof {
            assert forall|m: int| 0 <= m < out@.len() implies (#[trigger] out@[m]).1
                == self.count_of(tl@, out@[m].0) && out@[m].1 > 0 by {
                self.lemma_count_at_index(src[m], tl@, out@[m].0);
            }
            assert forall|m1: int, m2: int| 0 <= m1 < m2 < out@.len() implies (
            #[trigger] out@[m1]).0 != (#[trigger] out@[m2]).0 by {
                let j1 = src[m1];
                let j2 = src[m2];
                assert(0 <= j1 < n && 0 <= j2 < n);
                assert(j1 < j2);
                assert(self.entries()[j1].0 == tl@ && self.entries()[j2].0 == tl@);
                assert((self.entries()[j1].0, self.entries()[j1].1) != ((self.entries()[j2]).0, self.entries()[j2].1));
                assert(self.entries()[j1].1 == out@[m1].0 && self.entries()[j2].1 == out@[m2].0);
            }
            assert forall|t: i64| self.count_of(tl@, t) > 0 implies exists|m: int|
                0 <= m < out@.len() && (#[trigger] out@[m]).0 == t by {
                if !(exists|j: int|
                    0 <= j < n && (#[trigger] self.entries()[j]).0 == tl@ && self.entries()[j].1
                        == t)
                {
                    assert forall|j: int|
                        0 <= j < self.entries().len() implies ((#[trigger] self.entries()[j]).0, self.entries()[j].1)
                        != (tl@, t) by {}
                    self.lemma_count_absent(tl@, t);
                }
            }
        }
        out
    }
}

} // verus!
