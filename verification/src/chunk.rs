//! Chunks: immutable batches of logged rows for one entity path.

use vstd::prelude::*;

use crate::ids::{ChunkId, ResolvedTimeRange, RowId, Timeline};
use crate::path::EntityPath;
use crate::sums::{
    lemma_seq_remove_insert_multiset, lemma_seq_sum_skip_step, lemma_seq_sum_push,
    lemma_seq_sum_take_skip, seq_count, seq_sum,
};

verus! {

/// One logged row: its id, one time value per chunk timeline, and one
/// optional value per chunk component.
#[derive(Debug)]
pub struct Row {
    pub row_id: RowId,
    /// One time value per timeline of the owning chunk, aligned by index.
    pub times: Vec<i64>,
    /// One optional value per component of the owning chunk, aligned by index.
    pub values: Vec<Option<Vec<u8>>>,
}

/// Mathematical value of a [`Row`].
pub ghost struct RowView {
    pub row_id: RowId,
    pub times: Seq<i64>,
    pub values: Seq<Option<Seq<u8>>>,
}

impl View for Row {
    type V = RowView;

    open spec fn view(&self) -> RowView {
        RowView {
            row_id: self.row_id,
            times: self.times@,
            values: self.values@.map_values(
                |v: Option<Vec<u8>>|
                    match v {
                        Option::Some(b) => Option::Some(b@),
                        Option::None => Option::None,
                    },
            ),
        }
    }
}

/// Optional component values that actually carry data.
pub open spec fn value_is_some() -> spec_fn(Option<Seq<u8>>) -> bool {
    |v: Option<Seq<u8>>| v is Some
}

impl RowView {
    /// How many components actually carry data in this row.
    pub open spec fn some_count(self) -> nat {
        seq_count(self.values, value_is_some())
    }

    /// Bytes attributed to this row: its id, its time values and its
    /// component values.
    pub open spec fn size(self) -> nat {
        16 + 8 * self.times.len() + seq_sum(self.values, |v: Option<Seq<u8>>| value_size(v))
    }
}

/// Bytes attributed to one optional component value: a presence byte plus
/// the value's own bytes.
pub open spec fn value_size(v: Option<Seq<u8>>) -> nat {
    match v {
        Option::Some(b) => 1 + b.len(),
        Option::None => 1,
    }
}

/// An immutable batch of rows logged to one entity path, spanning zero or
/// more timelines. A chunk spanning no timeline is "static": its data is
/// outside time altogether.
#[derive(Debug)]
pub struct Chunk {
    pub id: ChunkId,
    pub entity_path: EntityPath,
    pub timelines: Vec<Timeline>,
    pub components: Vec<String>,
    pub rows: Vec<Row>,
}

/// Mathematical value of a [`Chunk`].
pub ghost struct ChunkView {
    pub id: ChunkId,
    pub entity_path: Seq<Seq<char>>,
    pub timelines: Seq<Seq<char>>,
    pub components: Seq<Seq<char>>,
    pub rows: Seq<RowView>,
}

impl View for Chunk {
    type V = ChunkView;

    open spec fn view(&self) -> ChunkView {
        ChunkView {
            id: self.id,
            entity_path: self.entity_path@,
            timelines: self.timelines@.map_values(|t: Timeline| t@),
            components: self.components@.map_values(|c: String| c@),
            rows: self.rows@.map_values(|r: Row| r@),
        }
    }
}

/// Index of `x` in `s`, meaningful only when `s` contains `x`.
pub open spec fn index_in(s: Seq<Seq<char>>, x: Seq<char>) -> int {
    choose|i: int| 0 <= i < s.len() && s[i] == x
}

/// Rows whose time on the timeline at index `k` is `t`.
pub open spec fn row_time_is(k: int, t: i64) -> spec_fn(RowView) -> bool {
    |r: RowView| r.times[k] == t
}

/// Rows that carry data for the component at index `ck`.
pub open spec fn row_comp_some(ck: int) -> spec_fn(RowView) -> bool {
    |r: RowView| r.values[ck] is Some
}

/// Per-row weight of (row, component) events at time `t` on the timeline at
/// index `tk`.
pub open spec fn row_events_weight(tk: int, t: i64) -> spec_fn(RowView) -> nat {
    |r: RowView|
        if r.times[tk] == t {
            r.some_count()
        } else {
            0
        }
}

/// Per-row weight of (row, component) events, regardless of time.
pub open spec fn row_some_weight() -> spec_fn(RowView) -> nat {
    |r: RowView| r.some_count()
}

impl ChunkView {
    /// A chunk is well formed when it has at least one row, its timelines and
    /// components are named without repetition, and every row carries exactly
    /// one time per timeline and one optional value per component.
    pub open spec fn wf(self) -> bool {
        &&& self.rows.len() >= 1
        &&& forall|i: int, j: int|
            0 <= i < j < self.timelines.len() ==> self.timelines[i] != self.timelines[j]
        &&& forall|i: int, j: int|
            0 <= i < j < self.components.len() ==> self.components[i] != self.components[j]
        &&& forall|r: int|
            0 <= r < self.rows.len() ==> (#[trigger] self.rows[r]).times.len()
                == self.timelines.len() && self.rows[r].values.len() == self.components.len()
    }

    /// A chunk with no timeline holds static (timeless) data.
    pub open spec fn is_static(self) -> bool {
        self.timelines.len() == 0
    }

    /// Rows are ordered by row id (non-strictly).
    pub open spec fn rows_sorted(self) -> bool {
        forall|i: int, j: int|
            0 <= i < j < self.rows.len() ==> !(#[trigger] self.rows[j]).row_id.spec_lt(
                (#[trigger] self.rows[i]).row_id,
            )
    }

    /// Rows are ordered by strictly increasing row id.
    pub open spec fn rows_sorted_strict(self) -> bool {
        forall|i: int, j: int|
            0 <= i < j < self.rows.len() ==> (#[trigger] self.rows[i]).row_id.spec_lt(
                (#[trigger] self.rows[j]).row_id,
            )
    }

    /// The number of rows of this chunk whose time on timeline `tl` is `t`;
    /// zero when the chunk does not span `tl` (in particular for static
    /// chunks).
    pub open spec fn time_count(self, tl: Seq<char>, t: i64) -> nat {
        if self.timelines.contains(tl) {
            let k = index_in(self.timelines, tl);
            seq_count(self.rows, row_time_is(k, t))
        } else {
            0
        }
    }

    /// The number of static (timeless) rows of this chunk carrying data for
    /// component `comp`.
    pub open spec fn comp_static_count(self, comp: Seq<char>) -> nat {
        if self.is_static() && self.components.contains(comp) {
            let ck = index_in(self.components, comp);
            seq_count(self.rows, row_comp_some(ck))
        } else {
            0
        }
    }

    /// The number of rows of this chunk that carry data for component `comp`
    /// on some (any) timeline; zero for static chunks.
    pub open spec fn comp_temporal_count(self, comp: Seq<char>) -> nat {
        if !self.is_static() && self.components.contains(comp) {
            let ck = index_in(self.components, comp);
            seq_count(self.rows, row_comp_some(ck))
        } else {
            0
        }
    }

    /// The number of (row, component) events of this chunk at time `t` on
    /// timeline `tl`.
    pub open spec fn events_count(self, tl: Seq<char>, t: i64) -> nat {
        if self.timelines.contains(tl) {
            let tk = index_in(self.timelines, tl);
            seq_sum(self.rows, row_events_weight(tk, t))
        } else {
            0
        }
    }

    /// The number of static (row, component) events of this chunk.
    pub open spec fn static_events(self) -> nat {
        if self.is_static() {
            seq_sum(self.rows, row_some_weight())
        } else {
            0
        }
    }
}

/// Greatest row id among `rows` (meaningful only for non-empty `rows`).
pub open spec fn rows_max_row_id(rows: Seq<RowView>) -> RowId
    decreases rows.len(),
{
    if rows.len() <= 1 {
        rows[0].row_id
    } else {
        let rest = rows_max_row_id(rows.drop_last());
        if rest.spec_lt(rows.last().row_id) {
            rows.last().row_id
        } else {
            rest
        }
    }
}

/// Least row id among `rows` (meaningful only for non-empty `rows`).
pub open spec fn rows_min_row_id(rows: Seq<RowView>) -> RowId
    decreases rows.len(),
{
    if rows.len() <= 1 {
        rows[0].row_id
    } else {
        let rest = rows_min_row_id(rows.drop_last());
        if rows.last().row_id.spec_lt(rest) {
            rows.last().row_id
        } else {
            rest
        }
    }
}

/// Greatest time among `rows` on the timeline at index `k`.
pub open spec fn rows_max_time(rows: Seq<RowView>, k: int) -> i64
    decreases rows.len(),
{
    if rows.len() <= 1 {
        rows[0].times[k]
    } else {
        let rest = rows_max_time(rows.drop_last(), k);
        if rest < rows.last().times[k] {
            rows.last().times[k]
        } else {
            rest
        }
    }
}

/// Least time among `rows` on the timeline at index `k`.
pub open spec fn rows_min_time(rows: Seq<RowView>, k: int) -> i64
    decreases rows.len(),
{
    if rows.len() <= 1 {
        rows[0].times[k]
    } else {
        let rest = rows_min_time(rows.drop_last(), k);
        if rows.last().times[k] < rest {
            rows.last().times[k]
        } else {
            rest
        }
    }
}

impl Chunk {
    pub fn num_rows(&self) -> (r: usize)
        ensures
            r == self@.rows.len(),
    {
        self.rows.len()
    }

    pub fn entity_path(&self) -> (r: &EntityPath)
        ensures
            r@ == self@.entity_path,
    {
        &self.entity_path
    }

    pub fn is_static(&self) -> (r: bool)
        ensures
            r == self@.is_static(),
    {
        self.timelines.len() == 0
    }

    /// Index of the given timeline within this chunk, if the chunk spans it.
    pub fn timeline_index(&self, tl: &Timeline) -> (r: Option<usize>)
        ensures
            match r {
                Some(k) => k < self@.timelines.len() && self@.timelines[k as int] == tl@,
                None => !self@.timelines.contains(tl@),
            },
    {
        let n = self.timelines.len();
        let mut i: usize = 0;
        while i < n
            invariant
                i <= n,
                n == self.timelines.len(),
                forall|j: int| 0 <= j < i ==> self@.timelines[j] != tl@,
            decreases n - i,
        {
            if self.timelines[i].eq(tl) {
                return Some(i);
            }
            i = i + 1;
        }
        None
    }

    /// Index of the given component within this chunk, if the chunk carries it.
    pub fn component_index(&self, comp: &String) -> (r: Option<usize>)
        ensures
            match r {
                Some(k) => k < self@.components.len() && self@.components[k as int] == comp@,
                None => !self@.components.contains(comp@),
            },
    {
        let n = self.components.len();
        let mut i: usize = 0;
        while i < n
            invariant
                i <= n,
                n == self.components.len(),
                forall|j: int| 0 <= j < i ==> self@.components[j] != comp@,
            decreases n - i,
        {
            proof {
                assert(self@.components[i as int] == self.components@[i as int]@);
            }
            if self.components[i] == *comp {
                proof {
                    assert(self@.components[i as int] == self.components@[i as int]@);
                }
                return Some(i);
            }
            i = i + 1;
        }
        None
    }

    /// Whether the chunk is well formed; see [`ChunkView::wf`].
    pub fn is_well_formed(&self) -> (r: bool)
        ensures
            r == self@.wf(),
    {
        if self.rows.len() == 0 {
            return false;
        }
        let nt = self.timelines.len();
        let nc = self.components.len();
        let mut i: usize = 0;
        while i < nt
            invariant
                i <= nt,
                nt == self.timelines.len(),
                forall|a: int, b: int| 0 <= a < b < i ==> self@.timelines[a] != self@.timelines[b],
            decreases nt - i,
        {
            let mut j: usize = 0;
            while j < i
                invariant
                    j <= i < nt,
                    nt == self.timelines.len(),
                    forall|b: int| 0 <= b < j ==> self@.timelines[b] != self@.timelines[i as int],
                decreases i - j,
            {
                if self.timelines[j].eq(&self.timelines[i]) {
                    proof {
                        assert(self@.timelines[j as int] == self@.timelines[i as int]);
                        assert(!self@.wf());
                    }
                    return false;
                }
                proof {
                    assert(self@.timelines[j as int] == self.timelines@[j as int]@);
                    assert(self@.timelines[i as int] == self.timelines@[i as int]@);
                }
                j = j + 1;
            }
            i = i + 1;
        }
        let mut i: usize = 0;
        while i < nc
            invariant
                i <= nc,
                nc == self.components.len(),
                forall|a: int, b: int|
                    0 <= a < b < i ==> self@.components[a] != self@.components[b],
            decreases nc - i,
        {
            let mut j: usize = 0;
            while j < i
                invariant
                    j <= i < nc,
                    nc == self.components.len(),
                    forall|b: int| 0 <= b < j ==> self@.components[b] != self@.components[i as int],
                decreases i - j,
            {
                if self.components[j] == self.components[i] {
                    proof {
                        assert(self@.components[j as int] == self@.components[i as int]);
                        assert(!self@.wf());
                    }
                    return false;
                }
                proof {
                    assert(self@.components[j as int] == self.components@[j as int]@);
                    assert(self@.components[i as int] == self.components@[i as int]@);
                }
                j = j + 1;
            }
            i = i + 1;
        }
        let nr = self.rows.len();
        let mut i: usize = 0;
        while i < nr
            invariant
                i <= nr,
                nr == self.rows.len(),
                nt == self.timelines.len(),
                nc == self.components.len(),
                forall|r: int|
                    0 <= r < i ==> (#[trigger] self@.rows[r]).times.len() == nt
                        && self@.rows[r].values.len() == nc,
            decreases nr - i,
        {
            proof {
                assert(self@.rows[i as int] == self.rows@[i as int]@);
            }
            if self.rows[i].times.len() != nt || self.rows[i].values.len() != nc {
                proof {
                    assert(!self@.wf());
                }
                return false;
            }
            i = i + 1;
        }
        true
    }

    /// The least and greatest row id of the chunk, or `None` for an empty one.
    pub fn row_id_range(&self) -> (r: Option<(RowId, RowId)>)
        ensures
            match r {
                Some(p) => self@.rows.len() > 0 && p.0 == rows_min_row_id(self@.rows) && p.1
                    == rows_max_row_id(self@.rows),
                None => self@.rows.len() == 0,
            },
    {
        if self.rows.len() == 0 {
            return None;
        }
        let mut lo = self.rows[0].row_id;
        let mut hi = self.rows[0].row_id;
        let n = self.rows.len();
        let mut i: usize = 1;
        proof {
            assert(self@.rows.take(1) =~= seq![self@.rows[0]]);
        }
        while i < n
            invariant
                1 <= i <= n,
                n == self.rows.len(),
                n == self@.rows.len(),
                lo == rows_min_row_id(self@.rows.take(i as int)),
                hi == rows_max_row_id(self@.rows.take(i as int)),
            decreases n - i,
        {
            let rid = self.rows[i].row_id;
            proof {
                assert(self@.rows.take(i + 1).drop_last() =~= self@.rows.take(i as int));
                assert(self@.rows.take(i + 1).last() == self@.rows[i as int]);
            }
            if hi.lt(&rid) {
                hi = rid;
            }
            if rid.lt(&lo) {
                lo = rid;
            }
            i = i + 1;
        }
        proof {
            assert(self@.rows.take(n as int) =~= self@.rows);
        }
        Some((lo, hi))
    }

    /// The span of the chunk's data on the given timeline, or `None` when the
    /// chunk does not cover it.
    pub fn time_range_on(&self, tl: &Timeline) -> (r: Option<ResolvedTimeRange>)
        requires
            self@.wf(),
        ensures
            match r {
                Some(rng) => self@.timelines.contains(tl@) && rng.min == rows_min_time(
                    self@.rows,
                    index_in(self@.timelines, tl@),
                ) && rng.max == rows_max_time(self@.rows, index_in(self@.timelines, tl@)),
                None => !self@.timelines.contains(tl@),
            },
    {
        let k = match self.timeline_index(tl) {
            Some(k) => k,
            None => {
                return None;
            },
        };
        proof {
            let ki = index_in(self@.timelines, tl@);
            assert(0 <= ki < self@.timelines.len() && self@.timelines[ki] == tl@);
            assert(ki == k as int);
        }
        let n = self.rows.len();
        proof {
            assert(self@.rows[0] == self.rows@[0]@);
            assert(k < self@.rows[0].times.len());
        }
        let mut lo = self.rows[0].times[k];
        let mut hi = lo;
        let mut i: usize = 1;
        proof {
            assert(self@.rows.take(1) =~= seq![self@.rows[0]]);
        }
        while i < n
            invariant
                1 <= i <= n,
                n == self.rows.len(),
                n == self@.rows.len(),
                self@.wf(),
                k < self@.timelines.len(),
                forall|r: int| 0 <= r < n ==> (#[trigger] self@.rows[r]).times.len() > k,
                lo == rows_min_time(self@.rows.take(i as int), k as int),
                hi == rows_max_time(self@.rows.take(i as int), k as int),
            decreases n - i,
        {
            proof {
                assert(self@.rows[i as int] == self.rows@[i as int]@);
                assert(k < self@.rows[i as int].times.len());
            }
            let t = self.rows[i].times[k];
            proof {
                assert(self@.rows.take(i + 1).drop_last() =~= self@.rows.take(i as int));
                assert(self@.rows.take(i + 1).last() == self@.rows[i as int]);
            }
            if hi < t {
                hi = t;
            }
            if t < lo {
                lo = t;
            }
            i = i + 1;
        }
        proof {
            assert(self@.rows.take(n as int) =~= self@.rows);
        }
        Some(ResolvedTimeRange { min: lo, max: hi })
    }

    /// Whether the rows are already ordered by row id.
    pub fn is_sorted(&self) -> (r: bool)
        ensures
            r == self@.rows_sorted(),
    {
        let n = self.rows.len();
        if n == 0 {
            return true;
        }
        let mut i: usize = 0;
        while i < n - 1
            invariant
                i <= n - 1,
                n == self.rows.len(),
                n == self@.rows.len(),
                forall|a: int|
                    0 <= a < i ==> !(#[trigger] self@.rows[a + 1]).row_id.spec_lt(
                        self@.rows[a].row_id,
                    ),
            decreases n - i,
        {
            proof {
                assert(self@.rows[i as int] == self.rows@[i as int]@);
                assert(self@.rows[i + 1] == self.rows@[i + 1]@);
            }
            if self.rows[i + 1].row_id.lt(&self.rows[i].row_id) {
                proof {
                    assert(self@.rows[i + 1].row_id.spec_lt(self@.rows[i as int].row_id));
                    assert(!self@.rows_sorted());
                }
                return false;
            }
            i = i + 1;
        }
        proof {
            lemma_rows_sorted_from_adjacent(self@.rows);
        }
        true
    }

    /// Whether the rows are ordered by strictly increasing row id.
    pub fn is_sorted_strict(&self) -> (r: bool)
        ensures
            r == self@.rows_sorted_strict(),
    {
        let n = self.rows.len();
        if n == 0 {
            return true;
        }
        let mut i: usize = 0;
        while i < n - 1
            invariant
                i <= n - 1,
                n == self.rows.len(),
                n == self@.rows.len(),
                forall|a: int|
                    0 <= a < i ==> (#[trigger] self@.rows[a]).row_id.spec_lt(
                        self@.rows[a + 1].row_id,
                    ),
            decreases n - i,
        {
            proof {
                assert(self@.rows[i as int] == self.rows@[i as int]@);
                assert(self@.rows[i + 1] == self.rows@[i + 1]@);
            }
            if !self.rows[i].row_id.lt(&self.rows[i + 1].row_id) {
                proof {
                    assert(!self@.rows[i as int].row_id.spec_lt(self@.rows[i + 1].row_id));
                    assert(!self@.rows_sorted_strict());
                }
                return false;
            }
            i = i + 1;
        }
        proof {
            lemma_rows_sorted_strict_from_adjacent(self@.rows);
        }
        true
    }

    /// Sorts the rows by row id if they are not already sorted; a chunk whose
    /// rows are already in order is left exactly as it is.
    pub fn sort_if_unsorted(&mut self)
        ensures
            final(self)@.id == old(self)@.id,
            final(self)@.entity_path == old(self)@.entity_path,
            final(self)@.timelines == old(self)@.timelines,
            final(self)@.components == old(self)@.components,
            final(self)@.rows.to_multiset() == old(self)@.rows.to_multiset(),
            final(self)@.rows.len() == old(self)@.rows.len(),
            final(self)@.rows_sorted(),
            old(self)@.rows_sorted() ==> final(self)@.rows == old(self)@.rows,
            old(self)@.wf() ==> final(self)@.wf(),
    {
        proof {
            broadcast use vstd::seq_lib::group_to_multiset_ensures;

        }
        if self.is_sorted() {
            return ;
        }
        let n = self.rows.len();
        let ghost orig = self@.rows;
        let mut i: usize = 1;
        proof {
            broadcast use vstd::seq_lib::group_to_multiset_ensures;

        }
        while i < n
            invariant
                1 <= i <= n,
                n == self.rows.len(),
                self@.rows.len() == n,
                self@.id == old(self)@.id,
                self@.entity_path == old(self)@.entity_path,
                self@.timelines == old(self)@.timelines,
                self@.components == old(self)@.components,
                self@.rows.to_multiset() == orig.to_multiset(),
                orig == old(self)@.rows,
                forall|a: int, b: int|
                    0 <= a < b < i ==> !(#[trigger] self@.rows[b]).row_id.spec_lt(
                        (#[trigger] self@.rows[a]).row_id,
                    ),
            decreases n - i,
        {
            let ghost before = self@.rows;
            let r = self.rows.remove(i);
            proof {
                assert(self@.rows =~= before.remove(i as int));
                assert(r@ == before[i as int]);
                assert(forall|a: int| 0 <= a < i ==> self@.rows[a] == before[a]);
            }
            let ghost removed = self@.rows;
            let mut j: usize = 0;
            let mut stopped = false;
            while j < i && !stopped
                invariant
                    j <= i,
                    i < n,
                    n - 1 == self.rows.len(),
                    removed == self@.rows,
                    forall|a: int| 0 <= a < j ==> !r@.row_id.spec_lt(
                        (#[trigger] self@.rows[a]).row_id,
                    ),
                    forall|a: int| 0 <= a < i ==> self@.rows[a] == before[a],
                    stopped ==> j < i && r@.row_id.spec_lt(self@.rows[j as int].row_id),
                decreases i - j + if stopped { 0int } else { 1int },
            {
                proof {
                    assert(self@.rows[j as int] == self.rows@[j as int]@);
                }
                if r.row_id.lt(&self.rows[j].row_id) {
                    stopped = true;
                } else {
                    j = j + 1;
                }
            }
            self.rows.insert(j, r);
            proof {
                assert(self@.rows =~= removed.insert(j as int, r@));
                lemma_seq_remove_insert_multiset(before, i as int, j as int);
                assert(self@.rows.to_multiset() =~= before.to_multiset());
                assert(forall|a: int| 0 <= a < j ==> self@.rows[a] == before[a]);
                assert(forall|a: int| j < a <= i ==> self@.rows[a] == before[a - 1]);
                assert(self@.rows[j as int] == r@);
                assert forall|a: int, b: int| 0 <= a < b < i + 1 implies !(#[trigger] self@.rows[b]).row_id
                    .spec_lt((#[trigger] self@.rows[a]).row_id) by {
                    if b < j {
                    } else if b == j {
                        assert(!r@.row_id.spec_lt(before[a].row_id));
                    } else if a == j {
                        assert(stopped && r@.row_id.spec_lt(before[j as int].row_id));
                        if b > j + 1 {
                            assert(!before[b - 1].row_id.spec_lt(before[j as int].row_id));
                        }
                    } else if a < j {
                        if a < b - 1 {
                            assert(!before[b - 1].row_id.spec_lt(before[a].row_id));
                        } else {
                            assert(stopped && r@.row_id.spec_lt(before[j as int].row_id));
                            assert(!r@.row_id.spec_lt(before[a].row_id));
                        }
                    } else {
                        assert(!before[b - 1].row_id.spec_lt(before[a - 1].row_id));
                    }
                }
            }
            i = i + 1;
        }
        proof {
            lemma_rows_sorted_from_pairwise(self@.rows);
            if old(self)@.wf() {
                assert forall|r: int|
                    0 <= r < self@.rows.len() implies (#[trigger] self@.rows[r]).times.len()
                    == self@.timelines.len() && self@.rows[r].values.len()
                    == self@.components.len() by {
                    let x = self@.rows[r];
                    assert(self@.rows.contains(x));
                    assert(self@.rows.to_multiset().count(x) > 0);
                    assert(old(self)@.rows.to_multiset().count(x) > 0);
                    assert(old(self)@.rows.contains(x));
                    let w = choose|w: int|
                        0 <= w < old(self)@.rows.len() && old(self)@.rows[w] == x;
                }
            }
        }
    }
}

/// Non-strict adjacent ordering of rows extends to all pairs.
proof fn lemma_rows_sorted_from_adjacent(rows: Seq<RowView>)
    requires
        forall|a: int|
            0 <= a < rows.len() - 1 ==> !(#[trigger] rows[a + 1]).row_id.spec_lt(
                rows[a].row_id,
            ),
    ensures
        forall|i: int, j: int|
            0 <= i < j < rows.len() ==> !(#[trigger] rows[j]).row_id.spec_lt(
                (#[trigger] rows[i]).row_id,
            ),
{
    assert forall|i: int, j: int| 0 <= i < j < rows.len() implies !(#[trigger] rows[j]).row_id
        .spec_lt((#[trigger] rows[i]).row_id) by {
        lemma_rows_chain(rows, i, j);
    }
}

proof fn lemma_rows_chain(rows: Seq<RowView>, i: int, j: int)
    requires
        forall|a: int|
            0 <= a < rows.len() - 1 ==> !(#[trigger] rows[a + 1]).row_id.spec_lt(
                rows[a].row_id,
            ),
        0 <= i < j < rows.len(),
    ensures
        !rows[j].row_id.spec_lt(rows[i].row_id),
    decreases j - i,
{
    if j > i + 1 {
        lemma_rows_chain(rows, i, j - 1);
        assert(!rows[(j - 1) + 1].row_id.spec_lt(rows[j - 1].row_id));
    } else {
        assert(!rows[i + 1].row_id.spec_lt(rows[i].row_id));
    }
}

/// Strict adjacent ordering of rows extends to all pairs.
proof fn lemma_rows_sorted_strict_from_adjacent(rows: Seq<RowView>)
    requires
        forall|a: int|
            0 <= a < rows.len() - 1 ==> (#[trigger] rows[a]).row_id.spec_lt(
                rows[a + 1].row_id,
            ),
    ensures
        forall|i: int, j: int|
            0 <= i < j < rows.len() ==> (#[trigger] rows[i]).row_id.spec_lt(
                (#[trigger] rows[j]).row_id,
            ),
{
    assert forall|i: int, j: int| 0 <= i < j < rows.len() implies (#[trigger] rows[i]).row_id
        .spec_lt((#[trigger] rows[j]).row_id) by {
        lemma_rows_chain_strict(rows, i, j);
    }
}

proof fn lemma_rows_chain_strict(rows: Seq<RowView>, i: int, j: int)
    requires
        forall|a: int|
            0 <= a < rows.len() - 1 ==> (#[trigger] rows[a]).row_id.spec_lt(
                rows[a + 1].row_id,
            ),
        0 <= i < j < rows.len(),
    ensures
        rows[i].row_id.spec_lt(rows[j].row_id),
    decreases j - i,
{
    if j > i + 1 {
        lemma_rows_chain_strict(rows, i, j - 1);
        assert(rows[j - 1].row_id.spec_lt(rows[(j - 1) + 1].row_id));
    } else {
        assert(rows[i].row_id.spec_lt(rows[i + 1].row_id));
    }
}

/// A pairwise-sorted sequence of rows satisfies [`ChunkView::rows_sorted`]
/// for any chunk holding it; restated here to close a sorting loop.
proof fn lemma_rows_sorted_from_pairwise(rows: Seq<RowView>)
    requires
        forall|a: int, b: int|
            0 <= a < b < rows.len() ==> !(#[trigger] rows[b]).row_id.spec_lt(
                (#[trigger] rows[a]).row_id,
            ),
    ensures
        forall|i: int, j: int|
            0 <= i < j < rows.len() ==> !(#[trigger] rows[j]).row_id.spec_lt(
                (#[trigger] rows[i]).row_id,
            ),
{
}


impl ChunkView {
    /// Bytes attributed to the whole chunk.
    pub open spec fn size(self) -> nat {
        seq_sum(self.rows, |r: RowView| r.size())
    }
}

impl Row {
    /// Bytes attributed to this row, or `None` when the count does not fit
    /// in 64 bits.
    pub fn size_bytes(&self) -> (r: Option<u64>)
        ensures
            match r {
                Some(s) => s == self@.size(),
                None => self@.size() > u64::MAX,
            },
    {
        let times_part = match (self.times.len() as u64).checked_mul(8) {
            Some(p) => p,
            None => {
                return None;
            },
        };
        let mut acc: u64 = match times_part.checked_add(16) {
            Some(a) => a,
            None => {
                return None;
            },
        };
        let n = self.values.len();
        let mut i: usize = 0;
        proof {
            assert(self@.values.take(0) =~= Seq::<Option<Seq<u8>>>::empty());
        }
        while i < n
            invariant
                i <= n,
                n == self.values.len(),
                n == self@.values.len(),
                acc == 16 + 8 * self@.times.len() + seq_sum(
                    self@.values.take(i as int),
                    |v: Option<Seq<u8>>| value_size(v),
                ),
            decreases n - i,
        {
            proof {
                assert(self@.values[i as int] == (match self.values@[i as int] {
                    Option::Some(b) => Option::<Seq<u8>>::Some(b@),
                    Option::None => Option::<Seq<u8>>::None,
                }));
            }
            let piece: u64 = match &self.values[i] {
                Some(b) => {
                    if b.len() == usize::MAX && usize::MAX as u64 == u64::MAX {
                        proof {
                            overflow_helper(self@, i as int);
                        }
                        return None;
                    }
                    (b.len() as u64) + 1
                },
                None => 1,
            };
            proof {
                assert(piece == value_size(self@.values[i as int]));
            }
            let next = match acc.checked_add(piece) {
                Some(a) => a,
                None => {
                    proof {
                        overflow_helper(self@, i as int);
                    }
                    return None;
                },
            };
            proof {
                assert(self@.values.take(i + 1) =~= self@.values.take(i as int).push(
                    self@.values[i as int],
                ));
                lemma_seq_sum_push(
                    self@.values.take(i as int),
                    self@.values[i as int],
                    |v: Option<Seq<u8>>| value_size(v),
                );
            }
            acc = next;
            i = i + 1;
        }
        proof {
            assert(self@.values.take(n as int) =~= self@.values);
        }
        Some(acc)
    }
}

/// The size of a row is at least the part accumulated over any prefix of its
/// values plus the size of the next value.
proof fn overflow_helper(r: RowView, i: int)
    requires
        0 <= i < r.values.len(),
    ensures
        r.size() >= 16 + 8 * r.times.len() + seq_sum(
            r.values.take(i),
            |v: Option<Seq<u8>>| value_size(v),
        ) + value_size(r.values[i]),
{
    let f = |v: Option<Seq<u8>>| value_size(v);
    lemma_seq_sum_take_skip(r.values, i, f);
    lemma_seq_sum_skip_step(r.values, i, f);
}

impl Chunk {
    /// Bytes attributed to the whole chunk, or `None` when the count does not
    /// fit in 64 bits.
    pub fn size_bytes(&self) -> (r: Option<u64>)
        ensures
            match r {
                Some(s) => s == self@.size(),
                None => self@.size() > u64::MAX,
            },
    {
        let n = self.rows.len();
        let mut acc: u64 = 0;
        let mut i: usize = 0;
        proof {
            assert(self@.rows.take(0) =~= Seq::<RowView>::empty());
        }
        while i < n
            invariant
                i <= n,
                n == self.rows.len(),
                n == self@.rows.len(),
                acc == seq_sum(self@.rows.take(i as int), |r: RowView| r.size()),
            decreases n - i,
        {
            proof {
                assert(self@.rows[i as int] == self.rows@[i as int]@);
            }
            let row_size = match self.rows[i].size_bytes() {
                Some(s) => s,
                None => {
                    proof {
                        chunk_overflow_helper(self@, i as int);
                    }
                    return None;
                },
            };
            let next = match acc.checked_add(row_size) {
                Some(a) => a,
                None => {
                    proof {
                        chunk_overflow_helper(self@, i as int);
                    }
                    return None;
                },
            };
            proof {
                assert(self@.rows.take(i + 1) =~= self@.rows.take(i as int).push(
                    self@.rows[i as int],
                ));
                lemma_seq_sum_push(
                    self@.rows.take(i as int),
                    self@.rows[i as int],
                    |r: RowView| r.size(),
                );
            }
            acc = next;
            i = i + 1;
        }
        proof {
            assert(self@.rows.take(n as int) =~= self@.rows);
        }
        Some(acc)
    }
}

/// The size of a chunk is at least the part accumulated over any prefix of
/// its rows plus the size of the next row.
proof fn chunk_overflow_helper(c: ChunkView, i: int)
    requires
        0 <= i < c.rows.len(),
    ensures
        c.size() >= seq_sum(c.rows.take(i), |r: RowView| r.size()) + c.rows[i].size(),
{
    let f = |r: RowView| r.size();
    lemma_seq_sum_take_skip(c.rows, i, f);
    lemma_seq_sum_skip_step(c.rows, i, f);
}


impl Clone for Row {
    fn clone(&self) -> (r: Self)
        ensures
            r@ == self@,
    {
        let times = self.times.clone();
        let values = self.values.clone();
        proof {
            assert forall|i: int| 0 <= i < times@.len() implies times@[i] == self.times@[i] by {
                assert(vstd::pervasive::cloned::<i64>(self.times[i], times[i]));
            }
            assert(times@ =~= self.times@);
            assert forall|i: int| 0 <= i < values@.len() implies (match #[trigger] values@[i] {
                Option::Some(b) => Option::<Seq<u8>>::Some(b@),
                Option::None => Option::<Seq<u8>>::None,
            }) == (match self.values@[i] {
                Option::Some(b) => Option::<Seq<u8>>::Some(b@),
                Option::None => Option::<Seq<u8>>::None,
            }) by {
                assert(vstd::pervasive::cloned::<Option<Vec<u8>>>(self.values[i], values[i]));
                if self.values@[i] is Some {
                    let a = self.values@[i]->Some_0;
                    let b = values@[i]->Some_0;
                    assert(vstd::pervasive::cloned::<Vec<u8>>(a, b));
                    assert forall|j: int| 0 <= j < b@.len() implies b@[j] == a@[j] by {
                        assert(vstd::pervasive::cloned::<u8>(a[j], b[j]));
                    }
                    assert(b@ =~= a@);
                }
            }
        }
        let r = Row { row_id: self.row_id, times, values };
        proof {
            assert(r@.values =~= self@.values);
        }
        r
    }
}

impl Clone for Chunk {
    fn clone(&self) -> (r: Self)
        ensures
            r@ == self@,
    {
        let timelines = self.timelines.clone();
        let components = self.components.clone();
        let rows = self.rows.clone();
        proof {
            assert forall|i: int| 0 <= i < timelines@.len() implies timelines@[i]@
                == self.timelines@[i]@ by {
                assert(vstd::pervasive::cloned::<Timeline>(self.timelines[i], timelines[i]));
            }
            assert forall|i: int| 0 <= i < components@.len() implies components@[i]
                == self.components@[i] by {
                assert(vstd::pervasive::cloned::<String>(self.components[i], components[i]));
            }
            assert(components@ =~= self.components@);
            assert forall|i: int| 0 <= i < rows@.len() implies rows@[i]@ == self.rows@[i]@ by {
                assert(vstd::pervasive::cloned::<Row>(self.rows[i], rows[i]));
            }
        }
        let r = Chunk {
            id: self.id,
            entity_path: self.entity_path.clone(),
            timelines,
            components,
            rows,
        };
        proof {
            assert(r@.timelines =~= self@.timelines);
            assert(r@.components =~= self@.components);
            assert(r@.rows =~= self@.rows);
        }
        r
    }
}

} // verus!

verus! {

/// A row never carries more component values than the bytes attributed to it.
pub proof fn lemma_row_some_le_size(r: RowView)
    ensures
        r.some_count() <= r.size(),
{
    crate::sums::lemma_seq_count_le_len(r.values, value_is_some());
    assert forall|i: int| 0 <= i < r.values.len() implies value_size(#[trigger] r.values[i])
        >= 1 by {}
    crate::sums::lemma_seq_sum_min_one(r.values, |v: Option<Seq<u8>>| value_size(v));
}

impl Row {
    /// How many components actually carry data in this row.
    pub fn some_values(&self) -> (r: usize)
        ensures
            r == self@.some_count(),
    {
        let n = self.values.len();
        let mut cnt: usize = 0;
        let mut i: usize = 0;
        proof {
            assert(self@.values.take(0) =~= Seq::<Option<Seq<u8>>>::empty());
            crate::sums::lemma_seq_count_le_len(self@.values, value_is_some());
        }
        while i < n
            invariant
                i <= n,
                n == self.values.len(),
                n == self@.values.len(),
                cnt == seq_count(self@.values.take(i as int), value_is_some()),
                seq_count(self@.values, value_is_some()) <= n,
            decreases n - i,
        {
            proof {
                assert(self@.values.take(i + 1) =~= self@.values.take(i as int).push(
                    self@.values[i as int],
                ));
                crate::sums::lemma_seq_count_push(
                    self@.values.take(i as int),
                    self@.values[i as int],
                    value_is_some(),
                );
                crate::sums::lemma_seq_sum_take_le(
                    self@.values,
                    i + 1,
                    crate::sums::indicator(value_is_some()),
                );
                assert(self@.values[i as int] == (match self.values@[i as int] {
                    Option::Some(b) => Option::<Seq<u8>>::Some(b@),
                    Option::None => Option::<Seq<u8>>::None,
                }));
            }
            if self.values[i].is_some() {
                cnt = cnt + 1;
            }
            i = i + 1;
        }
        proof {
            assert(self@.values.take(n as int) =~= self@.values);
        }
        cnt
    }
}

} // verus!
