//! The in-memory index: for each key, the location of its latest record.
use vstd::prelude::*;

use crate::bytes::bytes_equal;

verus! {

/// Where a record lies in the log.
#[derive(Debug, PartialEq, Eq, Copy, Clone, Structural)]
pub struct IndexValue {
    /// When the location was recorded, in microseconds since the epoch.
    pub timestamp: u128,
    /// The log segment; a single-segment log keeps this at 0.
    pub file_id: usize,
    /// Where the record's first byte lies.
    pub offset: u64,
    /// How many bytes the record takes.
    pub size: u64,
}

impl IndexValue {
    /// A location of `size` bytes at `offset` in segment `file_id`.
    pub fn new(timestamp: u128, file_id: usize, offset: u64, size: u64) -> (r: Self)
        ensures
            r == (IndexValue { timestamp, file_id, offset, size }),
    {
        IndexValue { timestamp, file_id, offset, size }
    }
}

/// Locations order by offset alone: the order of the log, not of recency.
pub open spec fn offset_order(a: IndexValue, b: IndexValue) -> Option<core::cmp::Ordering> {
    if a.offset < b.offset {
        Some(core::cmp::Ordering::Less)
    } else if a.offset > b.offset {
        Some(core::cmp::Ordering::Greater)
    } else {
        Some(core::cmp::Ordering::Equal)
    }
}

impl PartialOrd for IndexValue {
    fn partial_cmp(&self, other: &Self) -> (r: Option<core::cmp::Ordering>) {
        if self.offset < other.offset {
            Some(core::cmp::Ordering::Less)
        } else if self.offset > other.offset {
            Some(core::cmp::Ordering::Greater)
        } else {
            Some(core::cmp::Ordering::Equal)
        }
    }
}

impl vstd::std_specs::cmp::PartialOrdSpecImpl for IndexValue {
    open spec fn obeys_partial_cmp_spec() -> bool {
        true
    }

    open spec fn partial_cmp_spec(&self, other: &IndexValue) -> Option<core::cmp::Ordering> {
        offset_order(*self, *other)
    }
}

/// Two updates of one key: the second hands back the location the first stored,
/// and the key then maps to the second location. A key that no update stored is
/// not in the map.
pub proof fn lemma_update_twice(
    m: Map<Seq<u8>, IndexValue>,
    k: Seq<u8>,
    v1: IndexValue,
    v2: IndexValue,
    other: Seq<u8>,
)
    requires
        !m.contains_key(other),
        other != k,
    ensures
        m.insert(k, v1).contains_key(k),
        m.insert(k, v1)[k] == v1,
        m.insert(k, v1).insert(k, v2)[k] == v2,
        !m.insert(k, v1).insert(k, v2).contains_key(other),
{
}

/// The key that a lookup did not find.
#[derive(Debug)]
pub struct IndexKeyNotFoundError(pub Vec<u8>);

/// The map from keys to the location of their latest record.
pub struct Index {
    keys: Vec<(Vec<u8>, IndexValue)>,
    map: Ghost<Map<Seq<u8>, IndexValue>>,
}

impl View for Index {
    type V = Map<Seq<u8>, IndexValue>;

    closed spec fn view(&self) -> Map<Seq<u8>, IndexValue> {
        self.map@
    }
}

impl Index {
    /// Each stored pair is in the map, each key of the map is stored, and no key twice.
    pub closed spec fn wf(self) -> bool {
        &&& forall|i: int|
            0 <= i < self.keys@.len() ==> #[trigger] self.map@.contains_key(self.keys@[i].0@)
                && self.map@[self.keys@[i].0@] == self.keys@[i].1
        &&& forall|k: Seq<u8>|
            #[trigger] self.map@.contains_key(k) ==> exists|i: int|
                0 <= i < self.keys@.len() && #[trigger] self.keys@[i].0@ == k
        &&& forall|i: int, j: int|
            0 <= i < self.keys@.len() && 0 <= j < self.keys@.len() && #[trigger] self.keys@[i].0@
                == #[trigger] self.keys@[j].0@ ==> i == j
    }

    /// An index with no keys.
    pub fn new() -> (r: Self)
        ensures
            r.wf(),
            r@ == Map::<Seq<u8>, IndexValue>::empty(),
    {
        Index { keys: Vec::new(), map: Ghost(Map::empty()) }
    }

    /// Where `key` is stored in `keys`, if anywhere.
    fn position(&self, key: &Vec<u8>) -> (r: Option<usize>)
        requires
            self.wf(),
        ensures
            match r {
                Some(i) => i < self.keys@.len() && self.keys@[i as int].0@ == key@
                    && self@.contains_key(key@) && self@[key@] == self.keys@[i as int].1,
                None => !self@.contains_key(key@),
            },
    {
        let mut i: usize = 0;
        while i < self.keys.len()
            invariant
                self.wf(),
                i <= self.keys@.len(),
                forall|j: int| 0 <= j < i ==> self.keys@[j].0@ != key@,
            decreases self.keys@.len() - i,
        {
            if bytes_equal(&self.keys[i].0, key) {
                assert(self.map@.contains_key(self.keys@[i as int].0@));
                return Some(i);
            }
            i = i + 1;
        }
        None
    }

    /// Maps `key` to `value`, and returns the location it held before, if any.
    pub fn update(&mut self, key: Vec<u8>, value: IndexValue) -> (r: Option<IndexValue>)
        requires
            old(self).wf(),
        ensures
            final(self).wf(),
            final(self)@ == old(self)@.insert(key@, value),
            r == (if old(self)@.contains_key(key@) {
                Some(old(self)@[key@])
            } else {
                None
            }),
    {
        let ghost k = key@;
        let ghost before = self.keys@;
        match self.position(&key) {
            Some(i) => {
                let previous = self.keys[i].1;
                self.keys.set(i, (key, value));
                self.map = Ghost(self.map@.insert(k, value));
                proof {
                    assert forall|j: int| 0 <= j < self.keys@.len() implies #[trigger] self.keys@[j].0@
                        == before[j].0@ by {
                        if j == i {
                        }
                    }
                    assert forall|k2: Seq<u8>| #[trigger] self.map@.contains_key(k2) implies exists|j: int|
                        0 <= j < self.keys@.len() && #[trigger] self.keys@[j].0@ == k2 by {
                        if k2 == k {
                            assert(self.keys@[i as int].0@ == k2);
                        } else {
                            let j = choose|j: int| 0 <= j < before.len() && #[trigger] before[j].0@ == k2;
                            assert(self.keys@[j].0@ == k2);
                        }
                    }
                }
                Some(previous)
            },
            None => {
                self.keys.push((key, value));
                self.map = Ghost(self.map@.insert(k, value));
                proof {
                    assert forall|j: int| 0 <= j < before.len() implies #[trigger] self.keys@[j] == before[j]
                        && before[j].0@ != k by {
                        assert(old(self).map@.contains_key(before[j].0@));
                    }
                    assert forall|k2: Seq<u8>| #[trigger] self.map@.contains_key(k2) implies exists|j: int|
                        0 <= j < self.keys@.len() && #[trigger] self.keys@[j].0@ == k2 by {
                        if k2 == k {
                            assert(self.keys@[before.len() as int].0@ == k2);
                        } else {
                            let j = choose|j: int| 0 <= j < before.len() && #[trigger] before[j].0@ == k2;
                            assert(self.keys@[j].0@ == k2);
                        }
                    }
                }
                None
            },
        }
    }

    /// The location of `key`'s latest record, or the key back as an error.
    pub fn lookup(&self, key: Vec<u8>) -> (r: Result<IndexValue, IndexKeyNotFoundError>)
        requires
            self.wf(),
        ensures
            match r {
                Ok(v) => self@.contains_key(key@) && v == self@[key@],
                Err(e) => !self@.contains_key(key@) && e.0@ == key@,
            },
    {
        match self.position(&key) {
            Some(i) => Ok(self.keys[i].1),
            None => Err(IndexKeyNotFoundError(key)),
        }
    }

    /// Whether `key` has a location.
    pub fn contains(&self, key: &Vec<u8>) -> (r: bool)
        requires
            self.wf(),
        ensures
            r == self@.contains_key(key@),
    {
        self.position(key).is_some()
    }
}

} // verus!
