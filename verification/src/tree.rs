//! The entity index: for every logged entity path, which components carry
//! data, split into static and temporal events, together with the root
//! histogram of all events per timeline and the total static event count.
//!
//! A pure push-based subscriber: it mutates only through [`EntityTree::on_events`].

use vstd::prelude::*;

use crate::chunk::{index_in, row_comp_some, row_events_weight, row_some_weight, Chunk, ChunkView, RowView};
use crate::ids::Timeline;
use crate::path::{ComponentPath, EntityPath};
use crate::store::{ChunkStoreDiffKind, ChunkStoreEvent};
use crate::sums::{
    indicator, lemma_seq_count_le_len, lemma_seq_count_push, lemma_seq_sum_insert,
    lemma_seq_sum_push, lemma_seq_sum_remove, lemma_seq_sum_skip_step, lemma_seq_sum_take_le,
    lemma_seq_sum_take_skip, lemma_seq_sum_zero, seq_count, seq_sum,
};
use crate::times::TimesPerTimeline;

verus! {

/// Weight of one tree entry towards the static event count at `(e, c)`.
pub open spec fn comp_static_entry_weight(e: Seq<Seq<char>>, c: Seq<char>) -> spec_fn(
    (Seq<Seq<char>>, Seq<char>, u64, u64),
) -> nat {
    |en: (Seq<Seq<char>>, Seq<char>, u64, u64)|
        if en.0 == e && en.1 == c {
            en.2 as nat
        } else {
            0
        }
}

/// Weight of one tree entry towards the temporal event count at `(e, c)`.
pub open spec fn comp_temporal_entry_weight(e: Seq<Seq<char>>, c: Seq<char>) -> spec_fn(
    (Seq<Seq<char>>, Seq<char>, u64, u64),
) -> nat {
    |en: (Seq<Seq<char>>, Seq<char>, u64, u64)|
        if en.0 == e && en.1 == c {
            en.3 as nat
        } else {
            0
        }
}

/// Weight of one chunk towards the static event count at `(e, c)`.
pub open spec fn chunk_comp_static_weight(e: Seq<Seq<char>>, c: Seq<char>) -> spec_fn(
    ChunkView,
) -> nat {
    |ch: ChunkView|
        if ch.entity_path == e {
            ch.comp_static_count(c)
        } else {
            0
        }
}

/// Weight of one chunk towards the temporal event count at `(e, c)`.
pub open spec fn chunk_comp_temporal_weight(e: Seq<Seq<char>>, c: Seq<char>) -> spec_fn(
    ChunkView,
) -> nat {
    |ch: ChunkView|
        if ch.entity_path == e {
            ch.comp_temporal_count(c)
        } else {
            0
        }
}

/// Weight of one chunk towards the root histogram at `(tl, t)`.
pub open spec fn chunk_events_weight(tl: Seq<char>, t: i64) -> spec_fn(ChunkView) -> nat {
    |c: ChunkView| c.events_count(tl, t)
}

/// Weight of one chunk towards the total static event count.
pub open spec fn chunk_static_events_weight() -> spec_fn(ChunkView) -> nat {
    |c: ChunkView| c.static_events()
}

/// The per-entity component index: one entry per (entity path, component)
/// pair that currently carries data, with its static and temporal event
/// counts; plus the root time histogram and the total static event count.
pub struct EntityTree {
    components: Vec<(EntityPath, String, u64, u64)>,
    root_histogram: TimesPerTimeline,
    total_static: u64,
}

impl EntityTree {
    /// The current (entity, component, static events, temporal events)
    /// entries.
    pub closed spec fn comp_entries(&self) -> Seq<(Seq<Seq<char>>, Seq<char>, u64, u64)> {
        self.components@.map_values(
            |en: (EntityPath, String, u64, u64)| (en.0@, en.1@, en.2, en.3),
        )
    }

    /// The root histogram of (row, component) events, per timeline and time.
    pub closed spec fn root(&self) -> TimesPerTimeline {
        self.root_histogram
    }

    /// The total number of static (row, component) events.
    pub closed spec fn spec_total_static(&self) -> u64 {
        self.total_static
    }

    /// How many static events currently sit under `(e, c)`.
    pub open spec fn static_of(&self, e: Seq<Seq<char>>, c: Seq<char>) -> nat {
        seq_sum(self.comp_entries(), comp_static_entry_weight(e, c))
    }

    /// How many temporal events currently sit under `(e, c)`.
    pub open spec fn temporal_of(&self, e: Seq<Seq<char>>, c: Seq<char>) -> nat {
        seq_sum(self.comp_entries(), comp_temporal_entry_weight(e, c))
    }

    /// Internal coherence: (entity, component) keys are unique and every
    /// entry carries at least one event.
    pub closed spec fn wf(&self) -> bool {
        &&& forall|i: int, j: int|
            0 <= i < j < self.comp_entries().len() ==> ((#[trigger] self.comp_entries()[i]).0, self.comp_entries()[i].1)
                != ((#[trigger] self.comp_entries()[j]).0, self.comp_entries()[j].1)
        &&& forall|i: int|
            0 <= i < self.comp_entries().len() ==> (#[trigger] self.comp_entries()[i]).2
                + self.comp_entries()[i].3 >= 1
        &&& self.root_histogram.wf()
    }

    pub fn new() -> (r: EntityTree)
        ensures
            r.wf(),
            r.comp_entries() =~= Seq::<(Seq<Seq<char>>, Seq<char>, u64, u64)>::empty(),
            r.root().entries() =~= Seq::<(Seq<char>, i64, u64)>::empty(),
            r.spec_total_static() == 0,
    {
        let r = EntityTree {
            components: Vec::new(),
            root_histogram: TimesPerTimeline::new(),
            total_static: 0,
        };
        proof {
            assert(r.comp_entries() =~= Seq::<(Seq<Seq<char>>, Seq<char>, u64, u64)>::empty());
        }
        r
    }

    /// At a matching entry, both counts concentrate: all other entries weigh
    /// nothing there.
    proof fn lemma_comp_at_index(&self, i: int, e: Seq<Seq<char>>, c: Seq<char>)
        requires
            self.wf(),
            0 <= i < self.comp_entries().len(),
            self.comp_entries()[i].0 == e,
            self.comp_entries()[i].1 == c,
        ensures
            self.static_of(e, c) == self.comp_entries()[i].2,
            self.temporal_of(e, c) == self.comp_entries()[i].3,
    {
        let es = self.comp_entries();
        let ws = comp_static_entry_weight(e, c);
        let wt = comp_temporal_entry_weight(e, c);
        lemma_seq_sum_take_skip(es, i, ws);
        lemma_seq_sum_skip_step(es, i, ws);
        lemma_seq_sum_take_skip(es, i, wt);
        lemma_seq_sum_skip_step(es, i, wt);
        assert(forall|j: int| 0 <= j < i ==> #[trigger] es.take(i)[j] == es[j]);
        assert(forall|j: int|
            0 <= j < es.skip(i + 1).len() ==> #[trigger] es.skip(i + 1)[j] == es[j + i + 1]);
        lemma_seq_sum_zero(es.take(i), ws);
        lemma_seq_sum_zero(es.skip(i + 1), ws);
        lemma_seq_sum_zero(es.take(i), wt);
        lemma_seq_sum_zero(es.skip(i + 1), wt);
    }

    /// Where no entry matches, both counts are zero.
    proof fn lemma_comp_absent(&self, e: Seq<Seq<char>>, c: Seq<char>)
        requires
            forall|i: int|
                0 <= i < self.comp_entries().len() ==> ((#[trigger] self.comp_entries()[i]).0, self.comp_entries()[i].1)
                    != (e, c),
        ensures
            self.static_of(e, c) == 0,
            self.temporal_of(e, c) == 0,
    {
        lemma_seq_sum_zero(self.comp_entries(), comp_static_entry_weight(e, c));
        lemma_seq_sum_zero(self.comp_entries(), comp_temporal_entry_weight(e, c));
    }

    /// Index of the entry keyed `(e, c)`, if any.
    fn find_comp_entry(&self, e: &EntityPath, c: &String) -> (r: Option<usize>)
        ensures
            match r {
                Some(i) => i < self.comp_entries().len() && self.comp_entries()[i as int].0 == e@
                    && self.comp_entries()[i as int].1 == c@,
                None => forall|i: int|
                    0 <= i < self.comp_entries().len() ==> ((#[trigger] self.comp_entries()[i]).0, self.comp_entries()[i].1)
                        != (e@, c@),
            },
    {
        let n = self.components.len();
        let mut i: usize = 0;
        while i < n
            invariant
                i <= n,
                n == self.components.len(),
                forall|j: int|
                    0 <= j < i ==> ((#[trigger] self.comp_entries()[j]).0, self.comp_entries()[j].1)
                        != (e@, c@),
            decreases n - i,
        {
            proof {
                assert(self.comp_entries()[i as int] == (self.components@[i as int].0@, self.components@[
                    i as int].1@, self.components@[i as int].2, self.components@[i as int].3));
            }
            if self.components[i].0.eq(e) && self.components[i].1 == *c {
                return Some(i);
            }
            i = i + 1;
        }
        None
    }

    /// Raises the counts at `(e, c)` by `ds` static and `dt` temporal events.
    fn bump_comp(&mut self, e: &EntityPath, c: &String, ds: u64, dt: u64)
        requires
            old(self).wf(),
            ds + dt >= 1,
            old(self).static_of(e@, c@) + ds <= u64::MAX,
            old(self).temporal_of(e@, c@) + dt <= u64::MAX,
        ensures
            final(self).wf(),
            final(self).root() == old(self).root(),
            final(self).spec_total_static() == old(self).spec_total_static(),
            forall|e2: Seq<Seq<char>>, c2: Seq<char>|
                #[trigger] final(self).static_of(e2, c2) == old(self).static_of(e2, c2) + if e2
                    == e@ && c2 == c@ {
                    ds as nat
                } else {
                    0nat
                },
            forall|e2: Seq<Seq<char>>, c2: Seq<char>|
                #[trigger] final(self).temporal_of(e2, c2) == old(self).temporal_of(e2, c2) + if e2
                    == e@ && c2 == c@ {
                    dt as nat
                } else {
                    0nat
                },
    {
        let ghost before = self.comp_entries();
        match self.find_comp_entry(e, c) {
            Some(i) => {
                proof {
                    self.lemma_comp_at_index(i as int, e@, c@);
                }
                let en = self.components.remove(i);
                let ghost removed = self.comp_entries();
                proof {
                    assert(removed =~= before.remove(i as int));
                }
                let new_s = en.2 + ds;
                let new_t = en.3 + dt;
                self.components.insert(i, (en.0, en.1, new_s, new_t));
                proof {
                    assert(self.comp_entries() =~= removed.insert(
                        i as int,
                        (e@, c@, new_s, new_t),
                    ));
                    assert forall|e2: Seq<Seq<char>>, c2: Seq<char>|
                        #[trigger] self.static_of(e2, c2) == old(self).static_of(e2, c2) + (if e2
                            == e@ && c2 == c@ {
                            ds as nat
                        } else {
                            0nat
                        }) by {
                        let w = comp_static_entry_weight(e2, c2);
                        lemma_seq_sum_remove(before, i as int, w);
                        lemma_seq_sum_insert(removed, i as int, (e@, c@, new_s, new_t), w);
                    }
                    assert forall|e2: Seq<Seq<char>>, c2: Seq<char>|
                        #[trigger] self.temporal_of(e2, c2) == old(self).temporal_of(e2, c2) + (
                        if e2 == e@ && c2 == c@ {
                            dt as nat
                        } else {
                            0nat
                        }) by {
                        let w = comp_temporal_entry_weight(e2, c2);
                        lemma_seq_sum_remove(before, i as int, w);
                        lemma_seq_sum_insert(removed, i as int, (e@, c@, new_s, new_t), w);
                    }
                    assert forall|a: int, b: int|
                        0 <= a < b < self.comp_entries().len() implies ((
                    #[trigger] self.comp_entries()[a]).0, self.comp_entries()[a].1) != ((
                    #[trigger] self.comp_entries()[b]).0, self.comp_entries()[b].1) by {
                        assert(self.comp_entries()[a] == if a == i as int {
                            (e@, c@, new_s, new_t)
                        } else {
                            before[a]
                        });
                        assert(self.comp_entries()[b] == if b == i as int {
                            (e@, c@, new_s, new_t)
                        } else {
                            before[b]
                        });
                    }
                }
            },
            None => {
                proof {
                    self.lemma_comp_absent(e@, c@);
                }
                self.components.push((e.clone(), c.clone(), ds, dt));
                proof {
                    assert(self.comp_entries() =~= before.push((e@, c@, ds, dt)));
                    assert forall|e2: Seq<Seq<char>>, c2: Seq<char>|
                        #[trigger] self.static_of(e2, c2) == old(self).static_of(e2, c2) + (if e2
                            == e@ && c2 == c@ {
                            ds as nat
                        } else {
                            0nat
                        }) by {
                        lemma_seq_sum_push(before, (e@, c@, ds, dt), comp_static_entry_weight(e2, c2));
                    }
                    assert forall|e2: Seq<Seq<char>>, c2: Seq<char>|
                        #[trigger] self.temporal_of(e2, c2) == old(self).temporal_of(e2, c2) + (
                        if e2 == e@ && c2 == c@ {
                            dt as nat
                        } else {
                            0nat
                        }) by {
                        lemma_seq_sum_push(
                            before,
                            (e@, c@, ds, dt),
                            comp_temporal_entry_weight(e2, c2),
                        );
                    }
                    assert forall|a: int, b: int|
                        0 <= a < b < self.comp_entries().len() implies ((
                    #[trigger] self.comp_entries()[a]).0, self.comp_entries()[a].1) != ((
                    #[trigger] self.comp_entries()[b]).0, self.comp_entries()[b].1) by {
                        if b == self.comp_entries().len() - 1 {
                            assert(self.comp_entries()[a] == before[a]);
                        } else {
                            assert(self.comp_entries()[a] == before[a]);
                            assert(self.comp_entries()[b] == before[b]);
                        }
                    }
                }
            },
        }
    }

    /// Lowers the counts at `(e, c)`, dropping the entry once it is empty.
    fn drop_comp(&mut self, e: &EntityPath, c: &String, ds: u64, dt: u64)
        requires
            old(self).wf(),
            ds + dt >= 1,
            ds <= old(self).static_of(e@, c@),
            dt <= old(self).temporal_of(e@, c@),
        ensures
            final(self).wf(),
            final(self).root() == old(self).root(),
            final(self).spec_total_static() == old(self).spec_total_static(),
            forall|e2: Seq<Seq<char>>, c2: Seq<char>|
                #[trigger] final(self).static_of(e2, c2) + (if e2 == e@ && c2 == c@ {
                    ds as nat
                } else {
                    0nat
                }) == old(self).static_of(e2, c2),
            forall|e2: Seq<Seq<char>>, c2: Seq<char>|
                #[trigger] final(self).temporal_of(e2, c2) + (if e2 == e@ && c2 == c@ {
                    dt as nat
                } else {
                    0nat
                }) == old(self).temporal_of(e2, c2),
    {
        let ghost before = self.comp_entries();
        match self.find_comp_entry(e, c) {
            Some(i) => {
                proof {
                    self.lemma_comp_at_index(i as int, e@, c@);
                }
                let en = self.components.remove(i);
                let ghost removed = self.comp_entries();
                proof {
                    assert(removed =~= before.remove(i as int));
                }
                let new_s = en.2 - ds;
                let new_t = en.3 - dt;
                if new_s > 0 || new_t > 0 {
                    self.components.insert(i, (en.0, en.1, new_s, new_t));
                    proof {
                        assert(self.comp_entries() =~= removed.insert(
                            i as int,
                            (e@, c@, new_s, new_t),
                        ));
                        assert forall|e2: Seq<Seq<char>>, c2: Seq<char>|
                            #[trigger] self.static_of(e2, c2) + (if e2 == e@ && c2 == c@ {
                                ds as nat
                            } else {
                                0nat
                            }) == old(self).static_of(e2, c2) by {
                            let w = comp_static_entry_weight(e2, c2);
                            lemma_seq_sum_remove(before, i as int, w);
                            lemma_seq_sum_insert(removed, i as int, (e@, c@, new_s, new_t), w);
                        }
                        assert forall|e2: Seq<Seq<char>>, c2: Seq<char>|
                            #[trigger] self.temporal_of(e2, c2) + (if e2 == e@ && c2 == c@ {
                                dt as nat
                            } else {
                                0nat
                            }) == old(self).temporal_of(e2, c2) by {
                            let w = comp_temporal_entry_weight(e2, c2);
                            lemma_seq_sum_remove(before, i as int, w);
                            lemma_seq_sum_insert(removed, i as int, (e@, c@, new_s, new_t), w);
                        }
                        assert forall|a: int, b: int|
                            0 <= a < b < self.comp_entries().len() implies ((
                        #[trigger] self.comp_entries()[a]).0, self.comp_entries()[a].1) != ((
                        #[trigger] self.comp_entries()[b]).0, self.comp_entries()[b].1) by {
                            assert(self.comp_entries()[a] == if a == i as int {
                                (e@, c@, new_s, new_t)
                            } else {
                                before[a]
                            });
                            assert(self.comp_entries()[b] == if b == i as int {
                                (e@, c@, new_s, new_t)
                            } else {
                                before[b]
                            });
                        }
                    }
                } else {
                    proof {
                        assert forall|e2: Seq<Seq<char>>, c2: Seq<char>|
                            #[trigger] self.static_of(e2, c2) + (if e2 == e@ && c2 == c@ {
                                ds as nat
                            } else {
                                0nat
                            }) == old(self).static_of(e2, c2) by {
                            lemma_seq_sum_remove(before, i as int, comp_static_entry_weight(e2, c2));
                        }
                        assert forall|e2: Seq<Seq<char>>, c2: Seq<char>|
                            #[trigger] self.temporal_of(e2, c2) + (if e2 == e@ && c2 == c@ {
                                dt as nat
                            } else {
                                0nat
                            }) == old(self).temporal_of(e2, c2) by {
                            lemma_seq_sum_remove(
                                before,
                                i as int,
                                comp_temporal_entry_weight(e2, c2),
                            );
                        }
                        assert forall|a: int, b: int|
                            0 <= a < b < self.comp_entries().len() implies ((
                        #[trigger] self.comp_entries()[a]).0, self.comp_entries()[a].1) != ((
                        #[trigger] self.comp_entries()[b]).0, self.comp_entries()[b].1) by {
                            assert(self.comp_entries()[a] == if a < i as int {
                                before[a]
                            } else {
                                before[a + 1]
                            });
                            assert(self.comp_entries()[b] == if b < i as int {
                                before[b]
                            } else {
                                before[b + 1]
                            });
                        }
                    }
                }
            },
            None => {
                proof {
                    self.lemma_comp_absent(e@, c@);
                    if ds > 0 || dt > 0 {
                        assert(false);
                    }
                }
            },
        }
    }
}

/// The unique position of a contained component name, pinned through the
/// chunk's well-formedness.
pub proof fn index_in_components(c: ChunkView, comp: Seq<char>) -> (k: int)
    requires
        c.wf(),
        c.components.contains(comp),
    ensures
        0 <= k < c.components.len(),
        c.components[k] == comp,
        index_in(c.components, comp) == k,
        forall|j: int| 0 <= j < c.components.len() && c.components[j] == comp ==> j == k,
{
    let k = index_in(c.components, comp);
    assert(exists|i: int| 0 <= i < c.components.len() && c.components[i] == comp);
    k
}

impl Chunk {
    /// How many rows carry data for the component at index `ck`.
    fn count_some_at(&self, ck: usize) -> (r: usize)
        requires
            self@.wf(),
            ck < self@.components.len(),
        ensures
            r == seq_count(self@.rows, row_comp_some(ck as int)),
    {
        let ghost p = row_comp_some(ck as int);
        let n = self.rows.len();
        let mut cnt: usize = 0;
        let mut i: usize = 0;
        proof {
            assert(self@.rows.take(0) =~= Seq::<RowView>::empty());
            lemma_seq_count_le_len(self@.rows, p);
        }
        while i < n
            invariant
                i <= n,
                n == self.rows.len(),
                n == self@.rows.len(),
                ck < self@.components.len(),
                self@.wf(),
                cnt == seq_count(self@.rows.take(i as int), p),
                p == row_comp_some(ck as int),
                seq_count(self@.rows, p) <= n,
            decreases n - i,
        {
            proof {
                assert(self@.rows[i as int] == self.rows@[i as int]@);
                assert(self@.rows[i as int].values.len() == self@.components.len());
                assert(self@.rows.take(i + 1) =~= self@.rows.take(i as int).push(
                    self@.rows[i as int],
                ));
                lemma_seq_count_push(self@.rows.take(i as int), self@.rows[i as int], p);
                lemma_seq_sum_take_le(self@.rows, i + 1, indicator(p));
                assert(self@.rows[i as int].values[ck as int] == (
                match self.rows@[i as int].values@[ck as int] {
                    Option::Some(b) => Option::<Seq<u8>>::Some(b@),
                    Option::None => Option::<Seq<u8>>::None,
                }));
            }
            if self.rows[i].values[ck].is_some() {
                cnt = cnt + 1;
            }
            i = i + 1;
        }
        proof {
            assert(self@.rows.take(n as int) =~= self@.rows);
        }
        cnt
    }
}

} // verus!

verus! {

/// The static contribution of chunk `c` at `(e, comp)` counting only the
/// components before index `k`.
pub open spec fn comp_static_upto(
    c: ChunkView,
    e: Seq<Seq<char>>,
    comp: Seq<char>,
    k: int,
) -> nat {
    if c.components.take(k).contains(comp) {
        chunk_comp_static_weight(e, comp)(c)
    } else {
        0
    }
}

/// The temporal contribution of chunk `c` at `(e, comp)` counting only the
/// components before index `k`.
pub open spec fn comp_temporal_upto(
    c: ChunkView,
    e: Seq<Seq<char>>,
    comp: Seq<char>,
    k: int,
) -> nat {
    if c.components.take(k).contains(comp) {
        chunk_comp_temporal_weight(e, comp)(c)
    } else {
        0
    }
}

/// The root-histogram contribution of chunk `c` at `(tl, t)` counting only
/// the timelines before index `k`.
pub open spec fn events_count_upto(c: ChunkView, tl: Seq<char>, t: i64, k: int) -> nat {
    if c.timelines.take(k).contains(tl) {
        c.events_count(tl, t)
    } else {
        0
    }
}

impl EntityTree {
    /// Folds one added chunk into the component index.
    fn apply_comp_addition(&mut self, chunk: &Chunk)
        requires
            old(self).wf(),
            chunk@.wf(),
            forall|e: Seq<Seq<char>>, c: Seq<char>|
                old(self).static_of(e, c) + chunk_comp_static_weight(e, c)(chunk@) <= u64::MAX,
            forall|e: Seq<Seq<char>>, c: Seq<char>|
                old(self).temporal_of(e, c) + chunk_comp_temporal_weight(e, c)(chunk@) <= u64::MAX,
        ensures
            final(self).wf(),
            final(self).root() == old(self).root(),
            final(self).spec_total_static() == old(self).spec_total_static(),
            forall|e: Seq<Seq<char>>, c: Seq<char>|
                #[trigger] final(self).static_of(e, c) == old(self).static_of(e, c)
                    + chunk_comp_static_weight(e, c)(chunk@),
            forall|e: Seq<Seq<char>>, c: Seq<char>|
                #[trigger] final(self).temporal_of(e, c) == old(self).temporal_of(e, c)
                    + chunk_comp_temporal_weight(e, c)(chunk@),
    {
        let ghost cv = chunk@;
        let ghost orig = *old(self);
        let nc = chunk.components.len();
        let is_static = chunk.is_static();
        proof {
            assert(cv.components.take(0) =~= Seq::<Seq<char>>::empty());
        }
        let mut k: usize = 0;
        while k < nc
            invariant
                k <= nc,
                nc == chunk.components.len(),
                cv == chunk@,
                cv.wf(),
                is_static == cv.is_static(),
                self.wf(),
                self.root() == orig.root(),
                self.spec_total_static() == orig.spec_total_static(),
                forall|e: Seq<Seq<char>>, c: Seq<char>|
                    orig.static_of(e, c) + chunk_comp_static_weight(e, c)(cv) <= u64::MAX,
                forall|e: Seq<Seq<char>>, c: Seq<char>|
                    orig.temporal_of(e, c) + chunk_comp_temporal_weight(e, c)(cv) <= u64::MAX,
                forall|e: Seq<Seq<char>>, c: Seq<char>|
                    #[trigger] self.static_of(e, c) == orig.static_of(e, c) + comp_static_upto(
                        cv,
                        e,
                        c,
                        k as int,
                    ),
                forall|e: Seq<Seq<char>>, c: Seq<char>|
                    #[trigger] self.temporal_of(e, c) == orig.temporal_of(e, c)
                        + comp_temporal_upto(cv, e, c, k as int),
            decreases nc - k,
        {
            proof {
                assert(cv.components[k as int] == chunk.components@[k as int]@);
                assert(!cv.components.take(k as int).contains(cv.components[k as int])) by {
                    let cur = cv.components[k as int];
                    if cv.components.take(k as int).contains(cur) {
                        let j = choose|j: int|
                            0 <= j < k as int && cv.components.take(k as int)[j] == cur;
                        assert(cv.components[j] == cur);
                    }
                }
            }
            let w = chunk.count_some_at(k);
            let comp = &chunk.components[k];
            let e = &chunk.entity_path;
            proof {
                let key_c = cv.components[k as int];
                assert(cv.components.contains(key_c)) by {
                    assert(cv.components[k as int] == key_c);
                }
                let ki = index_in_components(cv, key_c);
                assert(ki == k as int);
                if is_static {
                    assert(cv.comp_static_count(key_c) == seq_count(
                        cv.rows,
                        row_comp_some(k as int),
                    ));
                    assert(cv.comp_temporal_count(key_c) == 0);
                } else {
                    assert(cv.comp_temporal_count(key_c) == seq_count(
                        cv.rows,
                        row_comp_some(k as int),
                    ));
                    assert(cv.comp_static_count(key_c) == 0);
                }
                assert(comp_static_upto(cv, e@, key_c, k as int) == 0);
                assert(comp_temporal_upto(cv, e@, key_c, k as int) == 0);
                assert(self.static_of(e@, key_c) == orig.static_of(e@, key_c));
                assert(self.temporal_of(e@, key_c) == orig.temporal_of(e@, key_c));
                assert(chunk_comp_static_weight(e@, key_c)(cv) == cv.comp_static_count(key_c));
                assert(chunk_comp_temporal_weight(e@, key_c)(cv) == cv.comp_temporal_count(key_c));
                assert(orig.static_of(e@, key_c) + chunk_comp_static_weight(e@, key_c)(cv)
                    <= u64::MAX);
                assert(orig.temporal_of(e@, key_c) + chunk_comp_temporal_weight(e@, key_c)(cv)
                    <= u64::MAX);
            }
            if w > 0 {
                let ds: u64 = if is_static {
                    w as u64
                } else {
                    0
                };
                let dt: u64 = if is_static {
                    0
                } else {
                    w as u64
                };
                self.bump_comp(e, comp, ds, dt);
            }
            proof {
                let key_c = cv.components[k as int];
                assert forall|e2: Seq<Seq<char>>, c2: Seq<char>|
                    #[trigger] self.static_of(e2, c2) == orig.static_of(e2, c2) + comp_static_upto(
                        cv,
                        e2,
                        c2,
                        k as int + 1,
                    ) by {
                    if c2 == key_c {
                        assert(cv.components.take(k as int + 1).contains(c2)) by {
                            assert(cv.components.take(k as int + 1)[k as int] == c2);
                        }
                        assert(comp_static_upto(cv, e2, c2, k as int) == 0);
                        assert(comp_temporal_upto(cv, e2, c2, k as int) == 0);
                    } else {
                        assert(cv.components.take(k as int + 1).contains(c2)
                            == cv.components.take(k as int).contains(c2)) by {
                            if cv.components.take(k as int + 1).contains(c2) {
                                let pre = cv.components.take(k as int + 1);
                                let j = choose|j: int| 0 <= j < pre.len() && pre[j] == c2;
                                if j < k as int {
                                    assert(cv.components.take(k as int)[j] == c2);
                                }
                            }
                            if cv.components.take(k as int).contains(c2) {
                                let j = choose|j: int|
                                    0 <= j < k as int && cv.components.take(k as int)[j] == c2;
                                assert(cv.components.take(k as int + 1)[j] == c2);
                            }
                        }
                    }
                }
                assert forall|e2: Seq<Seq<char>>, c2: Seq<char>|
                    #[trigger] self.temporal_of(e2, c2) == orig.temporal_of(e2, c2)
                        + comp_temporal_upto(cv, e2, c2, k as int + 1) by {
                    if c2 == key_c {
                        assert(cv.components.take(k as int + 1).contains(c2)) by {
                            assert(cv.components.take(k as int + 1)[k as int] == c2);
                        }
                        assert(comp_static_upto(cv, e2, c2, k as int) == 0);
                        assert(comp_temporal_upto(cv, e2, c2, k as int) == 0);
                    } else {
                        assert(cv.components.take(k as int + 1).contains(c2)
                            == cv.components.take(k as int).contains(c2)) by {
                            if cv.components.take(k as int + 1).contains(c2) {
                                let pre = cv.components.take(k as int + 1);
                                let j = choose|j: int| 0 <= j < pre.len() && pre[j] == c2;
                                if j < k as int {
                                    assert(cv.components.take(k as int)[j] == c2);
                                }
                            }
                            if cv.components.take(k as int).contains(c2) {
                                let j = choose|j: int|
                                    0 <= j < k as int && cv.components.take(k as int)[j] == c2;
                                assert(cv.components.take(k as int + 1)[j] == c2);
                            }
                        }
                    }
                }
            }
            k = k + 1;
        }
        proof {
            assert(cv.components.take(nc as int) =~= cv.components);
            assert forall|e: Seq<Seq<char>>, c: Seq<char>|
                #[trigger] self.static_of(e, c) == orig.static_of(e, c) + chunk_comp_static_weight(
                    e,
                    c,
                )(cv) by {
                if !cv.components.contains(c) {
                    assert(comp_static_upto(cv, e, c, nc as int) == 0);
                    assert(comp_temporal_upto(cv, e, c, nc as int) == 0);
                    assert(cv.comp_static_count(c) == 0 && cv.comp_temporal_count(c) == 0);
                }
            }
            assert forall|e: Seq<Seq<char>>, c: Seq<char>|
                #[trigger] self.temporal_of(e, c) == orig.temporal_of(e, c)
                    + chunk_comp_temporal_weight(e, c)(cv) by {
                if !cv.components.contains(c) {
                    assert(comp_static_upto(cv, e, c, nc as int) == 0);
                    assert(comp_temporal_upto(cv, e, c, nc as int) == 0);
                    assert(cv.comp_static_count(c) == 0 && cv.comp_temporal_count(c) == 0);
                }
            }
        }
    }

    /// Folds one removed chunk out of the component index.
    fn apply_comp_deletion(&mut self, chunk: &Chunk)
        requires
            old(self).wf(),
            chunk@.wf(),
            forall|e: Seq<Seq<char>>, c: Seq<char>|
                chunk_comp_static_weight(e, c)(chunk@) <= old(self).static_of(e, c),
            forall|e: Seq<Seq<char>>, c: Seq<char>|
                chunk_comp_temporal_weight(e, c)(chunk@) <= old(self).temporal_of(e, c),
        ensures
            final(self).wf(),
            final(self).root() == old(self).root(),
            final(self).spec_total_static() == old(self).spec_total_static(),
            forall|e: Seq<Seq<char>>, c: Seq<char>|
                #[trigger] final(self).static_of(e, c) + chunk_comp_static_weight(e, c)(chunk@)
                    == old(self).static_of(e, c),
            forall|e: Seq<Seq<char>>, c: Seq<char>|
                #[trigger] final(self).temporal_of(e, c) + chunk_comp_temporal_weight(e, c)(
                    chunk@,
                ) == old(self).temporal_of(e, c),
    {
        let ghost cv = chunk@;
        let ghost orig = *old(self);
        let nc = chunk.components.len();
        let is_static = chunk.is_static();
        proof {
            assert(cv.components.take(0) =~= Seq::<Seq<char>>::empty());
        }
        let mut k: usize = 0;
        while k < nc
            invariant
                k <= nc,
                nc == chunk.components.len(),
                cv == chunk@,
                cv.wf(),
                is_static == cv.is_static(),
                self.wf(),
                self.root() == orig.root(),
                self.spec_total_static() == orig.spec_total_static(),
                forall|e: Seq<Seq<char>>, c: Seq<char>|
                    chunk_comp_static_weight(e, c)(cv) <= orig.static_of(e, c),
                forall|e: Seq<Seq<char>>, c: Seq<char>|
                    chunk_comp_temporal_weight(e, c)(cv) <= orig.temporal_of(e, c),
                forall|e: Seq<Seq<char>>, c: Seq<char>|
                    #[trigger] self.static_of(e, c) + comp_static_upto(cv, e, c, k as int)
                        == orig.static_of(e, c),
                forall|e: Seq<Seq<char>>, c: Seq<char>|
                    #[trigger] self.temporal_of(e, c) + comp_temporal_upto(cv, e, c, k as int)
                        == orig.temporal_of(e, c),
            decreases nc - k,
        {
            proof {
                assert(cv.components[k as int] == chunk.components@[k as int]@);
                assert(!cv.components.take(k as int).contains(cv.components[k as int])) by {
                    let cur = cv.components[k as int];
                    if cv.components.take(k as int).contains(cur) {
                        let j = choose|j: int|
                            0 <= j < k as int && cv.components.take(k as int)[j] == cur;
                        assert(cv.components[j] == cur);
                    }
                }
            }
            let w = chunk.count_some_at(k);
            let comp = &chunk.components[k];
            let e = &chunk.entity_path;
            proof {
                let key_c = cv.components[k as int];
                assert(cv.components.contains(key_c)) by {
                    assert(cv.components[k as int] == key_c);
                }
                let ki = index_in_components(cv, key_c);
                assert(ki == k as int);
                if is_static {
                    assert(cv.comp_static_count(key_c) == seq_count(
                        cv.rows,
                        row_comp_some(k as int),
                    ));
                    assert(cv.comp_temporal_count(key_c) == 0);
                } else {
                    assert(cv.comp_temporal_count(key_c) == seq_count(
                        cv.rows,
                        row_comp_some(k as int),
                    ));
                    assert(cv.comp_static_count(key_c) == 0);
                }
                assert(comp_static_upto(cv, e@, key_c, k as int) == 0);
                assert(comp_temporal_upto(cv, e@, key_c, k as int) == 0);
                assert(self.static_of(e@, key_c) == orig.static_of(e@, key_c));
                assert(self.temporal_of(e@, key_c) == orig.temporal_of(e@, key_c));
                assert(chunk_comp_static_weight(e@, key_c)(cv) <= orig.static_of(e@, key_c));
                assert(chunk_comp_temporal_weight(e@, key_c)(cv) <= orig.temporal_of(e@, key_c));
            }
            if w > 0 {
                let ds: u64 = if is_static {
                    w as u64
                } else {
                    0
                };
                let dt: u64 = if is_static {
                    0
                } else {
                    w as u64
                };
                self.drop_comp(e, comp, ds, dt);
            }
            proof {
                let key_c = cv.components[k as int];
                assert forall|e2: Seq<Seq<char>>, c2: Seq<char>|
                    #[trigger] self.static_of(e2, c2) + comp_static_upto(cv, e2, c2, k as int + 1)
                        == orig.static_of(e2, c2) by {
                    if c2 == key_c {
                        assert(cv.components.take(k as int + 1).contains(c2)) by {
                            assert(cv.components.take(k as int + 1)[k as int] == c2);
                        }
                        assert(comp_static_upto(cv, e2, c2, k as int) == 0);
                        assert(comp_temporal_upto(cv, e2, c2, k as int) == 0);
                    } else {
                        assert(cv.components.take(k as int + 1).contains(c2)
                            == cv.components.take(k as int).contains(c2)) by {
                            if cv.components.take(k as int + 1).contains(c2) {
                                let pre = cv.components.take(k as int + 1);
                                let j = choose|j: int| 0 <= j < pre.len() && pre[j] == c2;
                                if j < k as int {
                                    assert(cv.components.take(k as int)[j] == c2);
                                }
                            }
                            if cv.components.take(k as int).contains(c2) {
                                let j = choose|j: int|
                                    0 <= j < k as int && cv.components.take(k as int)[j] == c2;
                                assert(cv.components.take(k as int + 1)[j] == c2);
                            }
                        }
                    }
                }
                assert forall|e2: Seq<Seq<char>>, c2: Seq<char>|
                    #[trigger] self.temporal_of(e2, c2) + comp_temporal_upto(
                        cv,
                        e2,
                        c2,
                        k as int + 1,
                    ) == orig.temporal_of(e2, c2) by {
                    if c2 == key_c {
                        assert(cv.components.take(k as int + 1).contains(c2)) by {
                            assert(cv.components.take(k as int + 1)[k as int] == c2);
                        }
                        assert(comp_static_upto(cv, e2, c2, k as int) == 0);
                        assert(comp_temporal_upto(cv, e2, c2, k as int) == 0);
                    } else {
                        assert(cv.components.take(k as int + 1).contains(c2)
                            == cv.components.take(k as int).contains(c2)) by {
                            if cv.components.take(k as int + 1).contains(c2) {
                                let pre = cv.components.take(k as int + 1);
                                let j = choose|j: int| 0 <= j < pre.len() && pre[j] == c2;
                                if j < k as int {
                                    assert(cv.components.take(k as int)[j] == c2);
                                }
                            }
                            if cv.components.take(k as int).contains(c2) {
                                let j = choose|j: int|
                                    0 <= j < k as int && cv.components.take(k as int)[j] == c2;
                                assert(cv.components.take(k as int + 1)[j] == c2);
                            }
                        }
                    }
                }
            }
            k = k + 1;
        }
        proof {
            assert(cv.components.take(nc as int) =~= cv.components);
            assert forall|e: Seq<Seq<char>>, c: Seq<char>|
                #[trigger] self.static_of(e, c) + chunk_comp_static_weight(e, c)(cv)
                    == orig.static_of(e, c) by {
                if !cv.components.contains(c) {
                    assert(comp_static_upto(cv, e, c, nc as int) == 0);
                    assert(comp_temporal_upto(cv, e, c, nc as int) == 0);
                    assert(cv.comp_static_count(c) == 0 && cv.comp_temporal_count(c) == 0);
                }
            }
            assert forall|e: Seq<Seq<char>>, c: Seq<char>|
                #[trigger] self.temporal_of(e, c) + chunk_comp_temporal_weight(e, c)(cv)
                    == orig.temporal_of(e, c) by {
                if !cv.components.contains(c) {
                    assert(comp_static_upto(cv, e, c, nc as int) == 0);
                    assert(comp_temporal_upto(cv, e, c, nc as int) == 0);
                    assert(cv.comp_static_count(c) == 0 && cv.comp_temporal_count(c) == 0);
                }
            }
        }
    }
}

} // verus!

verus! {

impl EntityTree {
    /// Folds one added chunk into the root histogram: every (row, component)
    /// event raises the count at its (timeline, time) by one.
    fn apply_root_addition(&mut self, chunk: &Chunk)
        requires
            old(self).wf(),
            chunk@.wf(),
            forall|tl: Seq<char>, t: i64|
                old(self).root().count_of(tl, t) + chunk@.events_count(tl, t) <= u64::MAX,
        ensures
            final(self).wf(),
            final(self).comp_entries() == old(self).comp_entries(),
            final(self).spec_total_static() == old(self).spec_total_static(),
            forall|tl: Seq<char>, t: i64|
                #[trigger] final(self).root().count_of(tl, t) == old(self).root().count_of(tl, t)
                    + chunk@.events_count(tl, t),
    {
        let ghost c = chunk@;
        let ghost orig = *old(self);
        let nt = chunk.timelines.len();
        let nr = chunk.rows.len();
        proof {
            assert(c.timelines.take(0) =~= Seq::<Seq<char>>::empty());
        }
        let mut k: usize = 0;
        while k < nt
            invariant
                k <= nt,
                nt == chunk.timelines.len(),
                nr == chunk.rows.len(),
                c == chunk@,
                c.wf(),
                self.wf(),
                self.comp_entries() == orig.comp_entries(),
                self.spec_total_static() == orig.spec_total_static(),
                forall|tl: Seq<char>, t: i64|
                    orig.root().count_of(tl, t) + c.events_count(tl, t) <= u64::MAX,
                forall|tl: Seq<char>, t: i64|
                    #[trigger] self.root().count_of(tl, t) == orig.root().count_of(tl, t)
                        + events_count_upto(c, tl, t, k as int),
            decreases nt - k,
        {
            let tl_k = &chunk.timelines[k];
            proof {
                assert(c.timelines[k as int] == chunk.timelines@[k as int]@);
                assert(!c.timelines.take(k as int).contains(c.timelines[k as int])) by {
                    let cur = c.timelines[k as int];
                    if c.timelines.take(k as int).contains(cur) {
                        let j = choose|j: int|
                            0 <= j < k as int && c.timelines.take(k as int)[j] == cur;
                        assert(c.timelines[j] == cur);
                    }
                }
                assert(c.rows.take(0) =~= Seq::<RowView>::empty());
            }
            let ghost pre = *self;
            self.root_histogram.register_timeline(tl_k);
            proof {
                assert forall|tl: Seq<char>, t: i64|
                    #[trigger] self.root().count_of(tl, t) == orig.root().count_of(tl, t)
                        + events_count_upto(c, tl, t, k as int) by {
                    assert(self.root().entries() == pre.root().entries());
                    assert(self.root().count_of(tl, t) == pre.root().count_of(tl, t));
                }
                assert(self.root().timeline_names().contains(tl_k@)) by {
                    let names0 = pre.root().timeline_names();
                    if !names0.contains(tl_k@) {
                        assert(self.root().timeline_names()[names0.len() as int] == tl_k@);
                    }
                }
            }
            let ghost base = *self;
            let mut r: usize = 0;
            while r < nr
                invariant
                    r <= nr,
                    nt == chunk.timelines.len(),
                    nr == chunk.rows.len(),
                    k < nt,
                    c == chunk@,
                    c.wf(),
                    self.wf(),
                    tl_k@ == c.timelines[k as int],
                    !c.timelines.take(k as int).contains(c.timelines[k as int]),
                    self.comp_entries() == base.comp_entries(),
                    self.spec_total_static() == base.spec_total_static(),
                    self.root().timeline_names() == base.root().timeline_names(),
                    self.root().timeline_names().contains(tl_k@),
                    forall|tl: Seq<char>, t: i64|
                        orig.root().count_of(tl, t) + c.events_count(tl, t) <= u64::MAX,
                    forall|tl: Seq<char>, t: i64|
                        #[trigger] base.root().count_of(tl, t) == orig.root().count_of(tl, t)
                            + events_count_upto(c, tl, t, k as int),
                    forall|tl: Seq<char>, t: i64|
                        #[trigger] self.root().count_of(tl, t) == base.root().count_of(tl, t) + (
                        if tl == c.timelines[k as int] {
                            seq_sum(c.rows.take(r as int), row_events_weight(k as int, t))
                        } else {
                            0nat
                        }),
                decreases nr - r,
            {
                proof {
                    assert(c.rows[r as int] == chunk.rows@[r as int]@);
                    assert(c.rows[r as int].times.len() == c.timelines.len());
                }
                let t = chunk.rows[r].times[k];
                let w = chunk.rows[r].some_values();
                proof {
                    let key_tl = c.timelines[k as int];
                    assert(c.timelines.contains(key_tl)) by {
                        assert(c.timelines[k as int] == key_tl);
                    }
                    let ki = crate::times::index_in_timelines(c, key_tl);
                    assert(ki == k as int);
                    assert(c.events_count(key_tl, t) == seq_sum(
                        c.rows,
                        row_events_weight(k as int, t),
                    ));
                    assert(c.rows.take(r as int + 1) =~= c.rows.take(r as int).push(
                        c.rows[r as int],
                    ));
                    lemma_seq_sum_push(
                        c.rows.take(r as int),
                        c.rows[r as int],
                        row_events_weight(k as int, t),
                    );
                    assert(row_events_weight(k as int, t)(c.rows[r as int]) == c.rows[
                        r as int].some_count());
                    lemma_seq_sum_take_le(c.rows, r as int + 1, row_events_weight(k as int, t));
                    assert(seq_sum(c.rows.take(r as int), row_events_weight(k as int, t))
                        + c.rows[r as int].some_count() <= c.events_count(key_tl, t));
                    assert(events_count_upto(c, key_tl, t, k as int) == 0);
                    assert(base.root().count_of(key_tl, t) == orig.root().count_of(key_tl, t));
                    assert(self.root().count_of(key_tl, t) + w <= u64::MAX);
                }
                if w > 0 {
                    self.root_histogram.bump(tl_k, t, w as u64);
                }
                proof {
                    assert forall|tl: Seq<char>, t2: i64|
                        #[trigger] self.root().count_of(tl, t2) == base.root().count_of(tl, t2) + (
                        if tl == c.timelines[k as int] {
                            seq_sum(c.rows.take(r as int + 1), row_events_weight(k as int, t2))
                        } else {
                            0nat
                        }) by {
                        if tl == c.timelines[k as int] {
                            assert(c.rows.take(r as int + 1) =~= c.rows.take(r as int).push(
                                c.rows[r as int],
                            ));
                            lemma_seq_sum_push(
                                c.rows.take(r as int),
                                c.rows[r as int],
                                row_events_weight(k as int, t2),
                            );
                        }
                    }
                }
                r = r + 1;
            }
            proof {
                assert(c.rows.take(nr as int) =~= c.rows);
                assert forall|tl: Seq<char>, t: i64|
                    #[trigger] self.root().count_of(tl, t) == orig.root().count_of(tl, t)
                        + events_count_upto(c, tl, t, k as int + 1) by {
                    let key_tl = c.timelines[k as int];
                    if tl == key_tl {
                        assert(c.timelines.contains(key_tl)) by {
                            assert(c.timelines[k as int] == key_tl);
                        }
                        let ki = crate::times::index_in_timelines(c, key_tl);
                        assert(ki == k as int);
                        assert(c.events_count(tl, t) == seq_sum(
                            c.rows,
                            row_events_weight(k as int, t),
                        ));
                        assert(events_count_upto(c, tl, t, k as int) == 0);
                        assert(c.timelines.take(k as int + 1).contains(tl)) by {
                            assert(c.timelines.take(k as int + 1)[k as int] == tl);
                        }
                    } else {
                        assert(c.timelines.take(k as int + 1).contains(tl)
                            == c.timelines.take(k as int).contains(tl)) by {
                            if c.timelines.take(k as int + 1).contains(tl) {
                                let pre2 = c.timelines.take(k as int + 1);
                                let j = choose|j: int| 0 <= j < pre2.len() && pre2[j] == tl;
                                if j < k as int {
                                    assert(c.timelines.take(k as int)[j] == tl);
                                }
                            }
                            if c.timelines.take(k as int).contains(tl) {
                                let j = choose|j: int|
                                    0 <= j < k as int && c.timelines.take(k as int)[j] == tl;
                                assert(c.timelines.take(k as int + 1)[j] == tl);
                            }
                        }
                    }
                }
            }
            k = k + 1;
        }
        proof {
            assert(c.timelines.take(nt as int) =~= c.timelines);
            assert forall|tl: Seq<char>, t: i64|
                #[trigger] self.root().count_of(tl, t) == orig.root().count_of(tl, t)
                    + c.events_count(tl, t) by {
                if !c.timelines.contains(tl) {
                    assert(events_count_upto(c, tl, t, nt as int) == 0);
                    assert(c.events_count(tl, t) == 0);
                }
            }
        }
    }

    /// Folds one removed chunk out of the root histogram.
    fn apply_root_deletion(&mut self, chunk: &Chunk)
        requires
            old(self).wf(),
            chunk@.wf(),
            forall|tl: Seq<char>, t: i64|
                chunk@.events_count(tl, t) <= old(self).root().count_of(tl, t),
        ensures
            final(self).wf(),
            final(self).comp_entries() == old(self).comp_entries(),
            final(self).spec_total_static() == old(self).spec_total_static(),
            final(self).root().timeline_names() == old(self).root().timeline_names(),
            forall|tl: Seq<char>, t: i64|
                #[trigger] final(self).root().count_of(tl, t) + chunk@.events_count(tl, t) == old(
                    self,
                ).root().count_of(tl, t),
    {
        let ghost c = chunk@;
        let ghost orig = *old(self);
        let nt = chunk.timelines.len();
        let nr = chunk.rows.len();
        proof {
            assert(c.timelines.take(0) =~= Seq::<Seq<char>>::empty());
        }
        let mut k: usize = 0;
        while k < nt
            invariant
                k <= nt,
                nt == chunk.timelines.len(),
                nr == chunk.rows.len(),
                c == chunk@,
                c.wf(),
                self.wf(),
                self.comp_entries() == orig.comp_entries(),
                self.spec_total_static() == orig.spec_total_static(),
                self.root().timeline_names() == orig.root().timeline_names(),
                forall|tl: Seq<char>, t: i64|
                    c.events_count(tl, t) <= orig.root().count_of(tl, t),
                forall|tl: Seq<char>, t: i64|
                    #[trigger] self.root().count_of(tl, t) + events_count_upto(c, tl, t, k as int)
                        == orig.root().count_of(tl, t),
            decreases nt - k,
        {
            let tl_k = &chunk.timelines[k];
            proof {
                assert(c.timelines[k as int] == chunk.timelines@[k as int]@);
                assert(!c.timelines.take(k as int).contains(c.timelines[k as int])) by {
                    let cur = c.timelines[k as int];
                    if c.timelines.take(k as int).contains(cur) {
                        let j = choose|j: int|
                            0 <= j < k as int && c.timelines.take(k as int)[j] == cur;
                        assert(c.timelines[j] == cur);
                    }
                }
                assert(c.rows.take(0) =~= Seq::<RowView>::empty());
            }
            let ghost base = *self;
            let mut r: usize = 0;
            while r < nr
                invariant
                    r <= nr,
                    nt == chunk.timelines.len(),
                    nr == chunk.rows.len(),
                    k < nt,
                    c == chunk@,
                    c.wf(),
                    self.wf(),
                    tl_k@ == c.timelines[k as int],
                    !c.timelines.take(k as int).contains(c.timelines[k as int]),
                    self.comp_entries() == base.comp_entries(),
                    self.spec_total_static() == base.spec_total_static(),
                    self.root().timeline_names() == base.root().timeline_names(),
                    forall|tl: Seq<char>, t: i64|
                        c.events_count(tl, t) <= orig.root().count_of(tl, t),
                    forall|tl: Seq<char>, t: i64|
                        #[trigger] base.root().count_of(tl, t) + events_count_upto(
                            c,
                            tl,
                            t,
                            k as int,
                        ) == orig.root().count_of(tl, t),
                    forall|tl: Seq<char>, t: i64|
                        #[trigger] self.root().count_of(tl, t) + (if tl == c.timelines[k as int] {
                            seq_sum(c.rows.take(r as int), row_events_weight(k as int, t))
                        } else {
                            0nat
                        }) == base.root().count_of(tl, t),
                decreases nr - r,
            {
                proof {
                    assert(c.rows[r as int] == chunk.rows@[r as int]@);
                    assert(c.rows[r as int].times.len() == c.timelines.len());
                }
                let t = chunk.rows[r].times[k];
                let w = chunk.rows[r].some_values();
                proof {
                    let key_tl = c.timelines[k as int];
                    assert(c.timelines.contains(key_tl)) by {
                        assert(c.timelines[k as int] == key_tl);
                    }
                    let ki = crate::times::index_in_timelines(c, key_tl);
                    assert(ki == k as int);
                    assert(c.events_count(key_tl, t) == seq_sum(
                        c.rows,
                        row_events_weight(k as int, t),
                    ));
                    assert(c.rows.take(r as int + 1) =~= c.rows.take(r as int).push(
                        c.rows[r as int],
                    ));
                    lemma_seq_sum_push(
                        c.rows.take(r as int),
                        c.rows[r as int],
                        row_events_weight(k as int, t),
                    );
                    assert(row_events_weight(k as int, t)(c.rows[r as int]) == c.rows[
                        r as int].some_count());
                    lemma_seq_sum_take_le(c.rows, r as int + 1, row_events_weight(k as int, t));
                    assert(seq_sum(c.rows.take(r as int), row_events_weight(k as int, t)) + w
                        <= c.events_count(key_tl, t));
                    assert(events_count_upto(c, key_tl, t, k as int) == 0);
                    assert(base.root().count_of(key_tl, t) == orig.root().count_of(key_tl, t));
                    assert(w <= self.root().count_of(key_tl, t));
                }
                if w > 0 {
                    let ghost pre = *self;
                    self.root_histogram.drop_count(tl_k, t, w as u64);
                }
                proof {
                    assert forall|tl: Seq<char>, t2: i64|
                        #[trigger] self.root().count_of(tl, t2) + (if tl == c.timelines[
                            k as int] {
                            seq_sum(c.rows.take(r as int + 1), row_events_weight(k as int, t2))
                        } else {
                            0nat
                        }) == base.root().count_of(tl, t2) by {
                        if tl == c.timelines[k as int] {
                            assert(c.rows.take(r as int + 1) =~= c.rows.take(r as int).push(
                                c.rows[r as int],
                            ));
                            lemma_seq_sum_push(
                                c.rows.take(r as int),
                                c.rows[r as int],
                                row_events_weight(k as int, t2),
                            );
                        }
                    }
                }
                r = r + 1;
            }
            proof {
                assert(c.rows.take(nr as int) =~= c.rows);
                assert forall|tl: Seq<char>, t: i64|
                    #[trigger] self.root().count_of(tl, t) + events_count_upto(
                        c,
                        tl,
                        t,
                        k as int + 1,
                    ) == orig.root().count_of(tl, t) by {
                    let key_tl = c.timelines[k as int];
                    if tl == key_tl {
                        assert(c.timelines.contains(key_tl)) by {
                            assert(c.timelines[k as int] == key_tl);
                        }
                        let ki = crate::times::index_in_timelines(c, key_tl);
                        assert(ki == k as int);
                        assert(c.events_count(tl, t) == seq_sum(
                            c.rows,
                            row_events_weight(k as int, t),
                        ));
                        assert(events_count_upto(c, tl, t, k as int) == 0);
                        assert(c.timelines.take(k as int + 1).contains(tl)) by {
                            assert(c.timelines.take(k as int + 1)[k as int] == tl);
                        }
                    } else {
                        assert(c.timelines.take(k as int + 1).contains(tl)
                            == c.timelines.take(k as int).contains(tl)) by {
                            if c.timelines.take(k as int + 1).contains(tl) {
                                let pre2 = c.timelines.take(k as int + 1);
                                let j = choose|j: int| 0 <= j < pre2.len() && pre2[j] == tl;
                                if j < k as int {
                                    assert(c.timelines.take(k as int)[j] == tl);
                                }
                            }
                            if c.timelines.take(k as int).contains(tl) {
                                let j = choose|j: int|
                                    0 <= j < k as int && c.timelines.take(k as int)[j] == tl;
                                assert(c.timelines.take(k as int + 1)[j] == tl);
                            }
                        }
                    }
                }
            }
            k = k + 1;
        }
        proof {
            assert(c.timelines.take(nt as int) =~= c.timelines);
            assert forall|tl: Seq<char>, t: i64|
                #[trigger] self.root().count_of(tl, t) + c.events_count(tl, t)
                    == orig.root().count_of(tl, t) by {
                if !c.timelines.contains(tl) {
                    assert(events_count_upto(c, tl, t, nt as int) == 0);
                    assert(c.events_count(tl, t) == 0);
                }
            }
        }
    }
}

} // verus!

use crate::times::{all_additions, all_deletions, events_chunks, events_wf};

verus! {

impl EntityTree {
    /// Adjusts the total static event counter for one chunk; `add` selects
    /// the direction.
    fn apply_static_total(&mut self, chunk: &Chunk, add: bool)
        requires
            old(self).wf(),
            chunk@.wf(),
            add ==> old(self).spec_total_static() + chunk@.static_events() <= u64::MAX,
            !add ==> chunk@.static_events() <= old(self).spec_total_static(),
        ensures
            final(self).wf(),
            final(self).comp_entries() == old(self).comp_entries(),
            final(self).root() == old(self).root(),
            add ==> final(self).spec_total_static() == old(self).spec_total_static()
                + chunk@.static_events(),
            !add ==> final(self).spec_total_static() + chunk@.static_events() == old(
                self,
            ).spec_total_static(),
    {
        let ghost c = chunk@;
        if !chunk.is_static() {
            proof {
                assert(c.static_events() == 0);
            }
            return ;
        }
        let nr = chunk.rows.len();
        let ghost orig_total = self.total_static;
        proof {
            assert(c.rows.take(0) =~= Seq::<RowView>::empty());
        }
        let mut r: usize = 0;
        while r < nr
            invariant
                r <= nr,
                nr == chunk.rows.len(),
                c == chunk@,
                c.wf(),
                c.is_static(),
                self.wf(),
                self.comp_entries() == old(self).comp_entries(),
                self.root() == old(self).root(),
                orig_total == old(self).spec_total_static(),
                add ==> orig_total + c.static_events() <= u64::MAX,
                !add ==> c.static_events() <= orig_total,
                add ==> self.total_static == orig_total + seq_sum(
                    c.rows.take(r as int),
                    row_some_weight(),
                ),
                !add ==> self.total_static + seq_sum(c.rows.take(r as int), row_some_weight())
                    == orig_total,
            decreases nr - r,
        {
            proof {
                assert(c.rows[r as int] == chunk.rows@[r as int]@);
                assert(c.static_events() == seq_sum(c.rows, row_some_weight()));
                assert(c.rows.take(r as int + 1) =~= c.rows.take(r as int).push(c.rows[r as int]));
                lemma_seq_sum_push(c.rows.take(r as int), c.rows[r as int], row_some_weight());
                lemma_seq_sum_take_le(c.rows, r as int + 1, row_some_weight());
                assert(row_some_weight()(c.rows[r as int]) == c.rows[r as int].some_count());
            }
            let w = chunk.rows[r].some_values();
            if add {
                self.total_static = self.total_static + (w as u64);
            } else {
                self.total_static = self.total_static - (w as u64);
            }
            r = r + 1;
        }
        proof {
            assert(c.rows.take(nr as int) =~= c.rows);
        }
    }

    /// The single mutation entrypoint: folds one store diff into the entity
    /// index. Additions raise the per-component, root-histogram and static
    /// counts; deletions lower them.
    pub fn on_events(&mut self, events: &Vec<ChunkStoreEvent>)
        requires
            old(self).wf(),
            events_wf(events@),
            all_additions(events@) || all_deletions(events@),
            all_additions(events@) && events@.len() > 0 ==> {
                &&& forall|e: Seq<Seq<char>>, c: Seq<char>|
                    old(self).static_of(e, c) + seq_sum(
                        events_chunks(events@),
                        chunk_comp_static_weight(e, c),
                    ) <= u64::MAX
                &&& forall|e: Seq<Seq<char>>, c: Seq<char>|
                    old(self).temporal_of(e, c) + seq_sum(
                        events_chunks(events@),
                        chunk_comp_temporal_weight(e, c),
                    ) <= u64::MAX
                &&& forall|tl: Seq<char>, t: i64|
                    old(self).root().count_of(tl, t) + seq_sum(
                        events_chunks(events@),
                        chunk_events_weight(tl, t),
                    ) <= u64::MAX
                &&& old(self).spec_total_static() + seq_sum(
                    events_chunks(events@),
                    chunk_static_events_weight(),
                ) <= u64::MAX
            },
            all_deletions(events@) ==> {
                &&& forall|e: Seq<Seq<char>>, c: Seq<char>|
                    seq_sum(events_chunks(events@), chunk_comp_static_weight(e, c)) <= old(
                        self,
                    ).static_of(e, c)
                &&& forall|e: Seq<Seq<char>>, c: Seq<char>|
                    seq_sum(events_chunks(events@), chunk_comp_temporal_weight(e, c)) <= old(
                        self,
                    ).temporal_of(e, c)
                &&& forall|tl: Seq<char>, t: i64|
                    seq_sum(events_chunks(events@), chunk_events_weight(tl, t)) <= old(
                        self,
                    ).root().count_of(tl, t)
                &&& seq_sum(events_chunks(events@), chunk_static_events_weight()) <= old(
                    self,
                ).spec_total_static()
            },
        ensures
            final(self).wf(),
            all_additions(events@) ==> {
                &&& forall|e: Seq<Seq<char>>, c: Seq<char>|
                    #[trigger] final(self).static_of(e, c) == old(self).static_of(e, c) + seq_sum(
                        events_chunks(events@),
                        chunk_comp_static_weight(e, c),
                    )
                &&& forall|e: Seq<Seq<char>>, c: Seq<char>|
                    #[trigger] final(self).temporal_of(e, c) == old(self).temporal_of(e, c)
                        + seq_sum(events_chunks(events@), chunk_comp_temporal_weight(e, c))
                &&& forall|tl: Seq<char>, t: i64|
                    #[trigger] final(self).root().count_of(tl, t) == old(self).root().count_of(
                        tl,
                        t,
                    ) + seq_sum(events_chunks(events@), chunk_events_weight(tl, t))
                &&& final(self).spec_total_static() == old(self).spec_total_static() + seq_sum(
                    events_chunks(events@),
                    chunk_static_events_weight(),
                )
            },
            all_deletions(events@) && events@.len() > 0 ==> {
                &&& forall|e: Seq<Seq<char>>, c: Seq<char>|
                    #[trigger] final(self).static_of(e, c) + seq_sum(
                        events_chunks(events@),
                        chunk_comp_static_weight(e, c),
                    ) == old(self).static_of(e, c)
                &&& forall|e: Seq<Seq<char>>, c: Seq<char>|
                    #[trigger] final(self).temporal_of(e, c) + seq_sum(
                        events_chunks(events@),
                        chunk_comp_temporal_weight(e, c),
                    ) == old(self).temporal_of(e, c)
                &&& forall|tl: Seq<char>, t: i64|
                    #[trigger] final(self).root().count_of(tl, t) + seq_sum(
                        events_chunks(events@),
                        chunk_events_weight(tl, t),
                    ) == old(self).root().count_of(tl, t)
                &&& final(self).spec_total_static() + seq_sum(
                    events_chunks(events@),
                    chunk_static_events_weight(),
                ) == old(self).spec_total_static()
            },
    {
        let ghost cs = events_chunks(events@);
        let ghost orig = *old(self);
        let n = events.len();
        let mut i: usize = 0;
        proof {
            assert(cs.take(0) =~= Seq::<ChunkView>::empty());
        }
        while i < n
            invariant
                i <= n,
                n == events@.len(),
                cs == events_chunks(events@),
                self.wf(),
                events_wf(events@),
                all_additions(events@) || all_deletions(events@),
                all_additions(events@) && n > 0 ==> {
                    &&& forall|e: Seq<Seq<char>>, c: Seq<char>|
                        orig.static_of(e, c) + seq_sum(cs, chunk_comp_static_weight(e, c))
                            <= u64::MAX
                    &&& forall|e: Seq<Seq<char>>, c: Seq<char>|
                        orig.temporal_of(e, c) + seq_sum(cs, chunk_comp_temporal_weight(e, c))
                            <= u64::MAX
                    &&& forall|tl: Seq<char>, t: i64|
                        orig.root().count_of(tl, t) + seq_sum(cs, chunk_events_weight(tl, t))
                            <= u64::MAX
                    &&& orig.spec_total_static() + seq_sum(cs, chunk_static_events_weight())
                        <= u64::MAX
                },
                all_deletions(events@) ==> {
                    &&& forall|e: Seq<Seq<char>>, c: Seq<char>|
                        seq_sum(cs, chunk_comp_static_weight(e, c)) <= orig.static_of(e, c)
                    &&& forall|e: Seq<Seq<char>>, c: Seq<char>|
                        seq_sum(cs, chunk_comp_temporal_weight(e, c)) <= orig.temporal_of(e, c)
                    &&& forall|tl: Seq<char>, t: i64|
                        seq_sum(cs, chunk_events_weight(tl, t)) <= orig.root().count_of(tl, t)
                    &&& seq_sum(cs, chunk_static_events_weight()) <= orig.spec_total_static()
                },
                all_additions(events@) ==> {
                    &&& forall|e: Seq<Seq<char>>, c: Seq<char>|
                        #[trigger] self.static_of(e, c) == orig.static_of(e, c) + seq_sum(
                            cs.take(i as int),
                            chunk_comp_static_weight(e, c),
                        )
                    &&& forall|e: Seq<Seq<char>>, c: Seq<char>|
                        #[trigger] self.temporal_of(e, c) == orig.temporal_of(e, c) + seq_sum(
                            cs.take(i as int),
                            chunk_comp_temporal_weight(e, c),
                        )
                    &&& forall|tl: Seq<char>, t: i64|
                        #[trigger] self.root().count_of(tl, t) == orig.root().count_of(tl, t)
                            + seq_sum(cs.take(i as int), chunk_events_weight(tl, t))
                    &&& self.spec_total_static() == orig.spec_total_static() + seq_sum(
                        cs.take(i as int),
                        chunk_static_events_weight(),
                    )
                },
                all_deletions(events@) ==> {
                    &&& forall|e: Seq<Seq<char>>, c: Seq<char>|
                        #[trigger] self.static_of(e, c) + seq_sum(
                            cs.take(i as int),
                            chunk_comp_static_weight(e, c),
                        ) == orig.static_of(e, c)
                    &&& forall|e: Seq<Seq<char>>, c: Seq<char>|
                        #[trigger] self.temporal_of(e, c) + seq_sum(
                            cs.take(i as int),
                            chunk_comp_temporal_weight(e, c),
                        ) == orig.temporal_of(e, c)
                    &&& forall|tl: Seq<char>, t: i64|
                        #[trigger] self.root().count_of(tl, t) + seq_sum(
                            cs.take(i as int),
                            chunk_events_weight(tl, t),
                        ) == orig.root().count_of(tl, t)
                    &&& self.spec_total_static() + seq_sum(
                        cs.take(i as int),
                        chunk_static_events_weight(),
                    ) == orig.spec_total_static()
                },
            decreases n - i,
        {
            let ev = &events[i];
            proof {
                assert(ev@.chunk == cs[i as int]);
                assert(ev@.chunk.wf());
                assert(cs.take(i as int + 1) =~= cs.take(i as int).push(cs[i as int]));
            }
            match ev.kind {
                ChunkStoreDiffKind::Addition => {
                    proof {
                        assert(all_additions(events@));
                        assert forall|e: Seq<Seq<char>>, c: Seq<char>|
                            self.static_of(e, c) + chunk_comp_static_weight(e, c)(ev.chunk@)
                                <= u64::MAX && self.temporal_of(e, c) + chunk_comp_temporal_weight(
                                e,
                                c,
                            )(ev.chunk@) <= u64::MAX by {
                            lemma_seq_sum_push(
                                cs.take(i as int),
                                cs[i as int],
                                chunk_comp_static_weight(e, c),
                            );
                            lemma_seq_sum_take_le(cs, i as int + 1, chunk_comp_static_weight(e, c));
                            lemma_seq_sum_push(
                                cs.take(i as int),
                                cs[i as int],
                                chunk_comp_temporal_weight(e, c),
                            );
                            lemma_seq_sum_take_le(
                                cs,
                                i as int + 1,
                                chunk_comp_temporal_weight(e, c),
                            );
                        }
                    }
                    let ghost at_entry = *self;
                    self.apply_comp_addition(&ev.chunk);
                    let ghost after_comp = *self;
                    proof {
                        assert forall|tl: Seq<char>, t: i64|
                            self.root().count_of(tl, t) + ev.chunk@.events_count(tl, t)
                                <= u64::MAX by {
                            lemma_seq_sum_push(
                                cs.take(i as int),
                                cs[i as int],
                                chunk_events_weight(tl, t),
                            );
                            lemma_seq_sum_take_le(cs, i as int + 1, chunk_events_weight(tl, t));
                            assert(chunk_events_weight(tl, t)(cs[i as int]) == ev.chunk@.events_count(
                                tl,
                                t,
                            ));
                        }
                    }
                    self.apply_root_addition(&ev.chunk);
                    proof {
                        lemma_seq_sum_push(
                            cs.take(i as int),
                            cs[i as int],
                            chunk_static_events_weight(),
                        );
                        lemma_seq_sum_take_le(cs, i as int + 1, chunk_static_events_weight());
                        assert(chunk_static_events_weight()(cs[i as int]) == ev.chunk@.static_events());
                    }
                    self.apply_static_total(&ev.chunk, true);
                    proof {
                        assert forall|e: Seq<Seq<char>>, c: Seq<char>|
                            #[trigger] self.static_of(e, c) == orig.static_of(e, c) + seq_sum(
                                cs.take(i as int + 1),
                                chunk_comp_static_weight(e, c),
                            ) by {
                            lemma_seq_sum_push(
                                cs.take(i as int),
                                cs[i as int],
                                chunk_comp_static_weight(e, c),
                            );
                            assert(at_entry.static_of(e, c) == orig.static_of(e, c) + seq_sum(
                                cs.take(i as int),
                                chunk_comp_static_weight(e, c),
                            ));
                            assert(after_comp.static_of(e, c) == at_entry.static_of(e, c)
                                + chunk_comp_static_weight(e, c)(cs[i as int]));
                            assert(self.comp_entries() == after_comp.comp_entries());
                            assert(self.static_of(e, c) == after_comp.static_of(e, c));
                        }
                        assert forall|e: Seq<Seq<char>>, c: Seq<char>|
                            #[trigger] self.temporal_of(e, c) == orig.temporal_of(e, c) + seq_sum(
                                cs.take(i as int + 1),
                                chunk_comp_temporal_weight(e, c),
                            ) by {
                            lemma_seq_sum_push(
                                cs.take(i as int),
                                cs[i as int],
                                chunk_comp_temporal_weight(e, c),
                            );
                            assert(at_entry.temporal_of(e, c) == orig.temporal_of(e, c) + seq_sum(
                                cs.take(i as int),
                                chunk_comp_temporal_weight(e, c),
                            ));
                            assert(after_comp.temporal_of(e, c) == at_entry.temporal_of(e, c)
                                + chunk_comp_temporal_weight(e, c)(cs[i as int]));
                            assert(self.comp_entries() == after_comp.comp_entries());
                            assert(self.temporal_of(e, c) == after_comp.temporal_of(e, c));
                        }
                        assert forall|tl: Seq<char>, t: i64|
                            #[trigger] self.root().count_of(tl, t) == orig.root().count_of(tl, t)
                                + seq_sum(cs.take(i as int + 1), chunk_events_weight(tl, t)) by {
                            lemma_seq_sum_push(
                                cs.take(i as int),
                                cs[i as int],
                                chunk_events_weight(tl, t),
                            );
                        }
                    }
                },
                ChunkStoreDiffKind::Deletion => {
                    proof {
                        assert(all_deletions(events@));
                        assert forall|e: Seq<Seq<char>>, c: Seq<char>|
                            chunk_comp_static_weight(e, c)(ev.chunk@) <= self.static_of(e, c)
                                && chunk_comp_temporal_weight(e, c)(ev.chunk@) <= self.temporal_of(
                                e,
                                c,
                            ) by {
                            lemma_seq_sum_push(
                                cs.take(i as int),
                                cs[i as int],
                                chunk_comp_static_weight(e, c),
                            );
                            lemma_seq_sum_take_le(cs, i as int + 1, chunk_comp_static_weight(e, c));
                            lemma_seq_sum_push(
                                cs.take(i as int),
                                cs[i as int],
                                chunk_comp_temporal_weight(e, c),
                            );
                            lemma_seq_sum_take_le(
                                cs,
                                i as int + 1,
                                chunk_comp_temporal_weight(e, c),
                            );
                        }
                    }
                    let ghost at_entry = *self;
                    self.apply_comp_deletion(&ev.chunk);
                    let ghost after_comp = *self;
                    proof {
                        assert forall|tl: Seq<char>, t: i64|
                            ev.chunk@.events_count(tl, t) <= self.root().count_of(tl, t) by {
                            lemma_seq_sum_push(
                                cs.take(i as int),
                                cs[i as int],
                                chunk_events_weight(tl, t),
                            );
                            lemma_seq_sum_take_le(cs, i as int + 1, chunk_events_weight(tl, t));
                            assert(chunk_events_weight(tl, t)(cs[i as int]) == ev.chunk@.events_count(
                                tl,
                                t,
                            ));
                        }
                    }
                    self.apply_root_deletion(&ev.chunk);
                    proof {
                        lemma_seq_sum_push(
                            cs.take(i as int),
                            cs[i as int],
                            chunk_static_events_weight(),
                        );
                        lemma_seq_sum_take_le(cs, i as int + 1, chunk_static_events_weight());
                        assert(chunk_static_events_weight()(cs[i as int]) == ev.chunk@.static_events());
                    }
                    self.apply_static_total(&ev.chunk, false);
                    proof {
                        assert forall|e: Seq<Seq<char>>, c: Seq<char>|
                            #[trigger] self.static_of(e, c) + seq_sum(
                                cs.take(i as int + 1),
                                chunk_comp_static_weight(e, c),
                            ) == orig.static_of(e, c) by {
                            lemma_seq_sum_push(
                                cs.take(i as int),
                                cs[i as int],
                                chunk_comp_static_weight(e, c),
                            );
                            assert(at_entry.static_of(e, c) + seq_sum(
                                cs.take(i as int),
                                chunk_comp_static_weight(e, c),
                            ) == orig.static_of(e, c));
                            assert(after_comp.static_of(e, c) + chunk_comp_static_weight(e, c)(
                                cs[i as int],
                            ) == at_entry.static_of(e, c));
                            assert(self.comp_entries() == after_comp.comp_entries());
                            assert(self.static_of(e, c) == after_comp.static_of(e, c));
                        }
                        assert forall|e: Seq<Seq<char>>, c: Seq<char>|
                            #[trigger] self.temporal_of(e, c) + seq_sum(
                                cs.take(i as int + 1),
                                chunk_comp_temporal_weight(e, c),
                            ) == orig.temporal_of(e, c) by {
                            lemma_seq_sum_push(
                                cs.take(i as int),
                                cs[i as int],
                                chunk_comp_temporal_weight(e, c),
                            );
                            assert(at_entry.temporal_of(e, c) + seq_sum(
                                cs.take(i as int),
                                chunk_comp_temporal_weight(e, c),
                            ) == orig.temporal_of(e, c));
                            assert(after_comp.temporal_of(e, c) + chunk_comp_temporal_weight(e, c)(
                                cs[i as int],
                            ) == at_entry.temporal_of(e, c));
                            assert(self.comp_entries() == after_comp.comp_entries());
                            assert(self.temporal_of(e, c) == after_comp.temporal_of(e, c));
                        }
                        assert forall|tl: Seq<char>, t: i64|
                            #[trigger] self.root().count_of(tl, t) + seq_sum(
                                cs.take(i as int + 1),
                                chunk_events_weight(tl, t),
                            ) == orig.root().count_of(tl, t) by {
                            lemma_seq_sum_push(
                                cs.take(i as int),
                                cs[i as int],
                                chunk_events_weight(tl, t),
                            );
                        }
                    }
                },
            }
            i = i + 1;
        }
        proof {
            assert(cs.take(n as int) =~= cs);
        }
    }

    /// Whether all of a component's recorded events are static; `None` when
    /// the entity or component holds no data at all.
    pub fn is_component_static(&self, component_path: &ComponentPath) -> (r: Option<bool>)
        requires
            self.wf(),
        ensures
            match r {
                Some(b) => (self.static_of(component_path.entity_path@, component_path.component_name@)
                    + self.temporal_of(
                    component_path.entity_path@,
                    component_path.component_name@,
                ) > 0) && b == (self.temporal_of(
                    component_path.entity_path@,
                    component_path.component_name@,
                ) == 0),
                None => self.static_of(component_path.entity_path@, component_path.component_name@)
                    == 0 && self.temporal_of(
                    component_path.entity_path@,
                    component_path.component_name@,
                ) == 0,
            },
    {
        match self.find_comp_entry(&component_path.entity_path, &component_path.component_name) {
            Some(i) => {
                proof {
                    self.lemma_comp_at_index(
                        i as int,
                        component_path.entity_path@,
                        component_path.component_name@,
                    );
                }
                Some(self.components[i].3 == 0)
            },
            None => {
                proof {
                    self.lemma_comp_absent(
                        component_path.entity_path@,
                        component_path.component_name@,
                    );
                }
                None
            },
        }
    }

    /// Total number of static events, over all entities and components.
    pub fn num_static_messages(&self) -> (r: u64)
        ensures
            r == self.spec_total_static(),
    {
        self.total_static
    }

    /// The root histogram's (time, count) pairs for one timeline; see
    /// [`TimesPerTimeline::histogram_of`].
    pub fn time_histogram(&self, tl: &Timeline) -> (r: Vec<(i64, u64)>)
        requires
            self.wf(),
        ensures
            forall|i: int|
                0 <= i < r@.len() ==> (#[trigger] r@[i]).1 == self.root().count_of(tl@, r@[i].0)
                    && r@[i].1 > 0,
            forall|i: int, j: int| 0 <= i < j < r@.len() ==> (#[trigger] r@[i]).0 != (
            #[trigger] r@[j]).0,
            forall|t: i64| self.root().count_of(tl@, t) > 0 ==> exists|i: int|
                0 <= i < r@.len() && (#[trigger] r@[i]).0 == t,
    {
        self.root_histogram.histogram_of(tl)
    }

}

} // verus!
