//! Entity paths: hierarchical names of logged entities, their ordering and
//! their hashes.

use vstd::prelude::*;

verus! {

/// Strict lexicographic order on character sequences, by Unicode code point.
pub open spec fn chars_lt(a: Seq<char>, b: Seq<char>) -> bool
    decreases b.len(),
{
    if b.len() == 0 {
        false
    } else if a.len() == 0 {
        true
    } else if a[0] != b[0] {
        a[0] < b[0]
    } else {
        chars_lt(a.skip(1), b.skip(1))
    }
}

/// `chars_lt` is a strict total order: it is asymmetric, and two sequences
/// that neither precede one another are equal.
pub proof fn lemma_chars_lt_total(a: Seq<char>, b: Seq<char>)
    ensures
        !(chars_lt(a, b) && chars_lt(b, a)),
        !chars_lt(a, b) && !chars_lt(b, a) ==> a == b,
    decreases b.len(),
{
    if b.len() == 0 {
        if !chars_lt(a, b) && !chars_lt(b, a) {
            assert(a.len() == 0);
            assert(a =~= b);
        }
    } else if a.len() == 0 {
    } else if a[0] != b[0] {
    } else {
        lemma_chars_lt_total(a.skip(1), b.skip(1));
        if !chars_lt(a, b) && !chars_lt(b, a) {
            assert(a.skip(1) == b.skip(1));
            assert(a =~= b) by {
                assert(forall|i: int|
                    1 <= i < a.len() ==> a[i] == a.skip(1)[i - 1] && b[i] == b.skip(1)[i - 1]);
            }
        }
    }
}

/// `chars_lt` is transitive.
pub proof fn lemma_chars_lt_trans(a: Seq<char>, b: Seq<char>, c: Seq<char>)
    requires
        chars_lt(a, b),
        chars_lt(b, c),
    ensures
        chars_lt(a, c),
    decreases c.len(),
{
    if b.len() == 0 || c.len() == 0 {
    } else if a.len() == 0 {
    } else if a[0] == b[0] && b[0] == c[0] {
        lemma_chars_lt_trans(a.skip(1), b.skip(1), c.skip(1));
    } else {
        assert(a[0] <= b[0] && b[0] <= c[0] && a[0] < c[0]);
    }
}

/// Compares two string slices in the order of [`chars_lt`].
pub fn str_lt(a: &str, b: &str) -> (r: bool)
    ensures
        r == chars_lt(a@, b@),
{
    let a_len = a.unicode_len();
    let b_len = b.unicode_len();
    let mut i: usize = 0;
    proof {
        assert(a@.skip(0) =~= a@);
        assert(b@.skip(0) =~= b@);
    }
    loop
        invariant
            i <= a_len,
            i <= b_len,
            a_len == a@.len(),
            b_len == b@.len(),
            chars_lt(a@, b@) == chars_lt(a@.skip(i as int), b@.skip(i as int)),
        decreases b_len - i,
    {
        if i == b_len {
            return false;
        }
        if i == a_len {
            return true;
        }
        let ca = a.get_char(i);
        let cb = b.get_char(i);
        if ca != cb {
            return ca < cb;
        }
        proof {
            assert(a@.skip(i as int).skip(1) =~= a@.skip(i + 1));
            assert(b@.skip(i as int).skip(1) =~= b@.skip(i + 1));
            assert(a@.skip(i as int)[0] == a@[i as int]);
            assert(b@.skip(i as int)[0] == b@[i as int]);
        }
        i = i + 1;
    }
}

/// Strict lexicographic order on entity paths, segment by segment.
pub open spec fn path_lt(a: Seq<Seq<char>>, b: Seq<Seq<char>>) -> bool
    decreases b.len(),
{
    if b.len() == 0 {
        false
    } else if a.len() == 0 {
        true
    } else if a[0] != b[0] {
        chars_lt(a[0], b[0])
    } else {
        path_lt(a.skip(1), b.skip(1))
    }
}

/// `path_lt` is a strict total order.
pub proof fn lemma_path_lt_total(a: Seq<Seq<char>>, b: Seq<Seq<char>>)
    ensures
        !(path_lt(a, b) && path_lt(b, a)),
        !path_lt(a, b) && !path_lt(b, a) ==> a == b,
    decreases b.len(),
{
    if b.len() == 0 {
        if !path_lt(a, b) && !path_lt(b, a) {
            assert(a.len() == 0);
            assert(a =~= b);
        }
    } else if a.len() == 0 {
    } else if a[0] != b[0] {
        lemma_chars_lt_total(a[0], b[0]);
    } else {
        lemma_path_lt_total(a.skip(1), b.skip(1));
        if !path_lt(a, b) && !path_lt(b, a) {
            assert(a.skip(1) == b.skip(1));
            assert(a =~= b) by {
                assert(forall|i: int|
                    1 <= i < a.len() ==> a[i] == a.skip(1)[i - 1] && b[i] == b.skip(1)[i - 1]);
            }
        }
    }
}

/// `path_lt` is transitive.
pub proof fn lemma_path_lt_trans(a: Seq<Seq<char>>, b: Seq<Seq<char>>, c: Seq<Seq<char>>)
    requires
        path_lt(a, b),
        path_lt(b, c),
    ensures
        path_lt(a, c),
    decreases c.len(),
{
    if b.len() == 0 || c.len() == 0 {
    } else if a.len() == 0 {
    } else if a[0] == b[0] && b[0] == c[0] {
        lemma_path_lt_trans(a.skip(1), b.skip(1), c.skip(1));
    } else if a[0] == b[0] {
        assert(a[0] != c[0] && chars_lt(a[0], c[0]));
    } else if b[0] == c[0] {
        assert(a[0] != c[0] && chars_lt(a[0], c[0]));
    } else {
        lemma_chars_lt_trans(a[0], b[0], c[0]);
        lemma_chars_lt_total(a[0], c[0]);
        assert(a[0] != c[0]);
    }
}

/// Whether path `a` is `b` itself or one of its ancestors.
pub open spec fn path_is_ancestor_or_equal(a: Seq<Seq<char>>, b: Seq<Seq<char>>) -> bool {
    a.len() <= b.len() && a == b.subrange(0, a.len() as int)
}

/// Hierarchical name of a logged entity: a sequence of path segments.
///
/// The root is the empty path; `world/points` is the two-segment path
/// `["world", "points"]`.
#[derive(Debug)]
pub struct EntityPath {
    pub parts: Vec<String>,
}

impl View for EntityPath {
    type V = Seq<Seq<char>>;

    open spec fn view(&self) -> Seq<Seq<char>> {
        self.parts@.map_values(|s: String| s@)
    }
}

/// Hash of an entity path, usable as a compact stand-in for the path itself.
#[derive(Clone, Copy, PartialEq, Eq, Structural, Debug, Hash)]
pub struct EntityPathHash {
    pub hash: u64,
}

/// One step of the FNV-1a style hash over a single code point.
pub open spec fn hash_step(h: u64, code: u32) -> u64 {
    (h ^ (code as u64)).wrapping_mul(0x100000001b3)
}

/// Hash of one path segment folded onto `h`, character by character, with a
/// terminator step so that segment boundaries matter.
pub open spec fn hash_segment(h: u64, s: Seq<char>) -> u64
    decreases s.len(),
{
    if s.len() == 0 {
        hash_step(h, 0x10FFFF)
    } else {
        hash_segment(hash_step(h, s[0] as u32), s.skip(1))
    }
}

/// Hash of a whole path: segments folded in order onto the FNV-1a basis.
pub open spec fn hash_path_from(h: u64, parts: Seq<Seq<char>>) -> u64
    decreases parts.len(),
{
    if parts.len() == 0 {
        h
    } else {
        hash_path_from(hash_segment(h, parts[0]), parts.skip(1))
    }
}

pub open spec fn hash_path(parts: Seq<Seq<char>>) -> u64 {
    hash_path_from(0xcbf29ce484222325, parts)
}

impl EntityPath {
    /// The root entity path, parent of every other path.
    pub fn root() -> (r: EntityPath)
        ensures
            r@ =~= Seq::<Seq<char>>::empty(),
    {
        EntityPath { parts: Vec::new() }
    }

    pub fn new(parts: Vec<String>) -> (r: EntityPath)
        ensures
            r.parts == parts,
    {
        EntityPath { parts }
    }

    pub fn len(&self) -> (r: usize)
        ensures
            r == self@.len(),
    {
        self.parts.len()
    }

    pub fn eq(&self, other: &EntityPath) -> (r: bool)
        ensures
            r == (self@ == other@),
    {
        if self.parts.len() != other.parts.len() {
            proof {
                assert(self@.len() != other@.len());
            }
            return false;
        }
        let n = self.parts.len();
        let mut i: usize = 0;
        while i < n
            invariant
                i <= n,
                n == self.parts.len() == other.parts.len(),
                forall|j: int| 0 <= j < i ==> self@[j] == other@[j],
            decreases n - i,
        {
            if !(self.parts[i] == other.parts[i]) {
                proof {
                    assert(self@[i as int] != other@[i as int]);
                }
                return false;
            }
            i = i + 1;
        }
        proof {
            assert(self@ =~= other@);
        }
        true
    }

    /// Compares two paths in the order of [`path_lt`].
    pub fn lt(&self, other: &EntityPath) -> (r: bool)
        ensures
            r == path_lt(self@, other@),
    {
        let a_len = self.parts.len();
        let b_len = other.parts.len();
        let mut i: usize = 0;
        proof {
            assert(self@.skip(0) =~= self@);
            assert(other@.skip(0) =~= other@);
        }
        loop
            invariant
                i <= a_len,
                i <= b_len,
                a_len == self@.len(),
                b_len == other@.len(),
                path_lt(self@, other@) == path_lt(
                    self@.skip(i as int),
                    other@.skip(i as int),
                ),
            decreases b_len - i,
        {
            if i == b_len {
                return false;
            }
            if i == a_len {
                return true;
            }
            proof {
                assert(self@.skip(i as int)[0] == self@[i as int]);
                assert(other@.skip(i as int)[0] == other@[i as int]);
            }
            if self.parts[i] == other.parts[i] {
                proof {
                    assert(self@.skip(i as int).skip(1) =~= self@.skip(i + 1));
                    assert(other@.skip(i as int).skip(1) =~= other@.skip(i + 1));
                }
                i = i + 1;
            } else {
                return str_lt(self.parts[i].as_str(), other.parts[i].as_str());
            }
        }
    }

    /// Whether `self` is `other` itself or one of its ancestors.
    pub open spec fn spec_is_ancestor_or_equal(self, other: EntityPath) -> bool {
        path_is_ancestor_or_equal(self@, other@)
    }

    pub fn is_ancestor_or_equal(&self, other: &EntityPath) -> (r: bool)
        ensures
            r == self.spec_is_ancestor_or_equal(*other),
    {
        let n = self.parts.len();
        if n > other.parts.len() {
            return false;
        }
        let mut i: usize = 0;
        while i < n
            invariant
                i <= n,
                n == self@.len() <= other@.len(),
                n == self.parts.len(),
                other.parts.len() == other@.len(),
                forall|j: int| 0 <= j < i ==> self@[j] == other@[j],
            decreases n - i,
        {
            if !(self.parts[i] == other.parts[i]) {
                proof {
                    assert(self@[i as int] != other@.subrange(0, n as int)[i as int]);
                }
                return false;
            }
            i = i + 1;
        }
        proof {
            assert(self@ =~= other@.subrange(0, n as int));
        }
        true
    }

    /// The path one level up, or `None` at the root.
    pub fn parent(&self) -> (r: Option<EntityPath>)
        ensures
            match r {
                Some(p) => self@.len() > 0 && p@ == self@.take(self@.len() - 1),
                None => self@.len() == 0,
            },
    {
        if self.parts.len() == 0 {
            None
        } else {
            let mut parts: Vec<String> = Vec::new();
            let n = self.parts.len() - 1;
            let mut i: usize = 0;
            while i < n
                invariant
                    i <= n,
                    n < self.parts.len(),
                    parts@.len() == i,
                    forall|j: int| 0 <= j < i ==> parts@[j]@ == self@[j],
                decreases n - i,
            {
                let s: String = self.parts[i].clone();
                assert(s@ == self@[i as int]);
                parts.push(s);
                i = i + 1;
            }
            let p = EntityPath { parts };
            proof {
                assert(p@ =~= self@.take(self@.len() - 1));
            }
            Some(p)
        }
    }

    /// The path's hash.
    pub fn hash(&self) -> (r: EntityPathHash)
        ensures
            r.hash == hash_path(self@),
    {
        let mut h: u64 = 0xcbf29ce484222325;
        let n = self.parts.len();
        let mut i: usize = 0;
        proof {
            assert(self@.skip(0) =~= self@);
        }
        while i < n
            invariant
                i <= n,
                n == self.parts.len(),
                hash_path(self@) == hash_path_from(h, self@.skip(i as int)),
            decreases n - i,
        {
            h = hash_segment_exec(h, self.parts[i].as_str());
            proof {
                assert(self@.skip(i as int)[0] == self@[i as int]);
                assert(self@.skip(i as int).skip(1) =~= self@.skip(i + 1));
            }
            i = i + 1;
        }
        proof {
            assert(self@.skip(n as int) =~= Seq::<Seq<char>>::empty());
        }
        EntityPathHash { hash: h }
    }
}

/// Folds one path segment onto the running hash.
fn hash_segment_exec(h: u64, s: &str) -> (r: u64)
    ensures
        r == hash_segment(h, s@),
{
    let n = s.unicode_len();
    let mut acc: u64 = h;
    let mut i: usize = 0;
    proof {
        assert(s@.skip(0) =~= s@);
    }
    while i < n
        invariant
            i <= n,
            n == s@.len(),
            hash_segment(h, s@) == hash_segment(acc, s@.skip(i as int)),
        decreases n - i,
    {
        let c = s.get_char(i);
        proof {
            assert(s@.skip(i as int)[0] == s@[i as int]);
            assert(s@.skip(i as int).skip(1) =~= s@.skip(i + 1));
        }
        acc = (acc ^ (c as u32 as u64)).wrapping_mul(0x100000001b3);
        i = i + 1;
    }
    proof {
        assert(s@.skip(n as int) =~= Seq::<char>::empty());
    }
    (acc ^ 0x10FFFFu64).wrapping_mul(0x100000001b3)
}

/// Full name of one component of one entity.
#[derive(Debug)]
pub struct ComponentPath {
    pub entity_path: EntityPath,
    pub component_name: String,
}

impl ComponentPath {
    pub fn new(entity_path: EntityPath, component_name: String) -> (r: ComponentPath)
        ensures
            r.entity_path == entity_path,
            r.component_name == component_name,
    {
        ComponentPath { entity_path, component_name }
    }
}


impl Clone for EntityPath {
    fn clone(&self) -> (r: Self)
        ensures
            r@ == self@,
    {
        let parts = self.parts.clone();
        proof {
            assert forall|i: int| 0 <= i < parts@.len() implies parts@[i] == self.parts@[i] by {
                assert(vstd::pervasive::cloned::<String>(self.parts[i], parts[i]));
            }
            assert(parts@ =~= self.parts@);
        }
        EntityPath { parts }
    }
}

impl Clone for ComponentPath {
    fn clone(&self) -> (r: Self)
        ensures
            r.entity_path@ == self.entity_path@,
            r.component_name@ == self.component_name@,
    {
        ComponentPath {
            entity_path: self.entity_path.clone(),
            component_name: self.component_name.clone(),
        }
    }
}

} // verus!
