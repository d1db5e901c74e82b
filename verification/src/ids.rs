//! Identifiers: row ids, chunk ids, store ids and timelines.

use vstd::prelude::*;

verus! {

/// Globally unique identifier of a logged row.
///
/// It embeds the wall-clock time at which the row was created, which makes it
/// usable for "most recent edit" ordering and for end-to-end latency
/// measurement. The counter breaks ties between rows created within the same
/// nanosecond.
#[derive(Clone, Copy, PartialEq, Eq, Structural, Debug, Hash)]
pub struct RowId {
    /// Wall-clock creation time, in nanoseconds since the Unix epoch.
    pub nanos_since_epoch: u64,
    /// Tie-breaking counter for rows created within the same nanosecond.
    pub inc: u64,
}

impl RowId {
    /// Strict ordering: creation time first, then the tie-breaking counter.
    pub open spec fn spec_lt(self, other: RowId) -> bool {
        self.nanos_since_epoch < other.nanos_since_epoch || (self.nanos_since_epoch
            == other.nanos_since_epoch && self.inc < other.inc)
    }

    pub fn lt(&self, other: &RowId) -> (r: bool)
        ensures
            r == self.spec_lt(*other),
    {
        self.nanos_since_epoch < other.nanos_since_epoch || (self.nanos_since_epoch
            == other.nanos_since_epoch && self.inc < other.inc)
    }

    /// The greater of two row ids.
    pub fn max(self, other: RowId) -> (r: RowId)
        ensures
            r == if self.spec_lt(other) {
                other
            } else {
                self
            },
    {
        if self.lt(&other) {
            other
        } else {
            self
        }
    }
}

/// Unique identifier of a chunk.
#[derive(Clone, Copy, PartialEq, Eq, Structural, Debug, Hash)]
pub struct ChunkId {
    pub id: u64,
}

/// Whether a store holds logged data or viewer configuration.
#[derive(Clone, Copy, PartialEq, Eq, Structural, Debug, Hash)]
pub enum StoreKind {
    /// Logged data.
    Recording,
    /// Viewer configuration.
    Blueprint,
}

/// Unique identifier of a store: its kind plus a unique name.
#[derive(Debug)]
pub struct StoreId {
    pub kind: StoreKind,
    pub id: String,
}

/// Mathematical value of a [`StoreId`].
pub ghost struct StoreIdView {
    pub kind: StoreKind,
    pub id: Seq<char>,
}

impl View for StoreId {
    type V = StoreIdView;

    open spec fn view(&self) -> StoreIdView {
        StoreIdView { kind: self.kind, id: self.id@ }
    }
}

impl StoreId {
    pub fn new(kind: StoreKind, id: String) -> (r: StoreId)
        ensures
            r@ == (StoreIdView { kind, id: id@ }),
    {
        StoreId { kind, id }
    }

    pub fn eq(&self, other: &StoreId) -> (r: bool)
        ensures
            r == (self@ == other@),
    {
        let r = self.kind == other.kind && self.id == other.id;
        proof {
            if r {
                assert(self@ == other@);
            }
        }
        r
    }
}

/// Identifies the application a recording came from.
#[derive(Debug)]
pub struct ApplicationId {
    pub id: String,
}

impl View for ApplicationId {
    type V = Seq<char>;

    open spec fn view(&self) -> Seq<char> {
        self.id@
    }
}

/// A named ordering axis against which logged values are indexed (wall-clock
/// time, a frame counter, …). Data without any timeline association is
/// "static".
#[derive(Debug)]
pub struct Timeline {
    pub name: String,
}

impl View for Timeline {
    type V = Seq<char>;

    open spec fn view(&self) -> Seq<char> {
        self.name@
    }
}

impl Timeline {
    pub fn new(name: String) -> (r: Timeline)
        ensures
            r@ == name@,
    {
        Timeline { name }
    }

    pub fn eq(&self, other: &Timeline) -> (r: bool)
        ensures
            r == (self@ == other@),
    {
        self.name == other.name
    }
}

/// An inclusive range of times on one timeline.
#[derive(Clone, Copy, PartialEq, Eq, Structural, Debug)]
pub struct ResolvedTimeRange {
    pub min: i64,
    pub max: i64,
}

impl ResolvedTimeRange {
    pub fn new(min: i64, max: i64) -> (r: ResolvedTimeRange)
        ensures
            r.min == min,
            r.max == max,
    {
        ResolvedTimeRange { min, max }
    }

    /// Whether `time` lies within the inclusive range.
    pub open spec fn spec_contains(self, time: i64) -> bool {
        self.min <= time && time <= self.max
    }

    pub fn contains(&self, time: i64) -> (r: bool)
        ensures
            r == self.spec_contains(time),
    {
        self.min <= time && time <= self.max
    }
}


impl Clone for StoreId {
    fn clone(&self) -> (r: Self)
        ensures
            r@ == self@,
    {
        StoreId { kind: self.kind, id: self.id.clone() }
    }
}

impl Clone for ApplicationId {
    fn clone(&self) -> (r: Self)
        ensures
            r@ == self@,
    {
        ApplicationId { id: self.id.clone() }
    }
}

impl Clone for Timeline {
    fn clone(&self) -> (r: Self)
        ensures
            r@ == self@,
    {
        Timeline { name: self.name.clone() }
    }
}

} // verus!
