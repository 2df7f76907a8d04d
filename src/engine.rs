//! The store's decisions: which bytes go where in the log on an insert, and
//! where a key's record lies on a read. The log file itself is handled by the
//! caller, which performs the writes that these functions hand back.
use vstd::prelude::*;

use crate::bytes::copy_range;
use crate::entry::{decode, lemma_round_trip, Entry, Record, HEADER_LEN};
use crate::error::EngineError;
use crate::index::{Index, IndexValue};

verus! {

/// Bytes that the log file must receive at `offset`.
#[derive(Debug)]
pub struct LogWrite {
    pub offset: u64,
    pub bytes: Vec<u8>,
}

/// `prior` holds exactly `bytes`.
pub open spec fn supplies(prior: Option<Vec<u8>>, bytes: Seq<u8>) -> bool {
    match prior {
        Some(b) => b@ == bytes,
        None => false,
    }
}

/// Why `prior` yields no record to mark as superseded at length `size`, if it does not.
pub open spec fn tombstone_failure(prior: Option<Vec<u8>>, size: u64) -> Option<EngineError> {
    match prior {
        None => Some(EngineError::TruncatedRecord),
        Some(b) => match decode(b@) {
            Err(e) => Some(e),
            Ok(rec) => if rec.tombstoned().encoding().len() == size {
                None
            } else {
                Some(EngineError::TruncatedRecord)
            },
        },
    }
}

/// The log after `bytes` are written at `offset`, which lies within it or at its end.
pub open spec fn apply_write(log: Seq<u8>, offset: int, bytes: Seq<u8>) -> Seq<u8> {
    let end = offset + bytes.len();
    if end < log.len() {
        log.subrange(0, offset) + bytes + log.subrange(end, log.len() as int)
    } else {
        log.subrange(0, offset) + bytes
    }
}

/// The record that the log holds at `loc`.
pub open spec fn record_at(log: Seq<u8>, loc: IndexValue) -> Result<Record, EngineError> {
    decode(log.subrange(loc.offset as int, loc.offset + loc.size))
}

/// The two locations share no byte.
pub open spec fn disjoint(a: IndexValue, b: IndexValue) -> bool {
    a.offset + a.size <= b.offset || b.offset + b.size <= a.offset
}

/// A write leaves the bytes outside its range as they were.
pub proof fn lemma_apply_write_elsewhere(log: Seq<u8>, offset: int, bytes: Seq<u8>, a: int, b: int)
    requires
        0 <= offset,
        offset + bytes.len() <= log.len(),
        0 <= a <= b <= log.len(),
        b <= offset || offset + bytes.len() <= a,
    ensures
        apply_write(log, offset, bytes).len() == log.len(),
        apply_write(log, offset, bytes).subrange(a, b) == log.subrange(a, b),
{
    assert(apply_write(log, offset, bytes).subrange(a, b) =~= log.subrange(a, b));
}

/// A write puts its bytes at its offset.
pub proof fn lemma_apply_write_here(log: Seq<u8>, offset: int, bytes: Seq<u8>)
    requires
        0 <= offset <= log.len(),
    ensures
        apply_write(log, offset, bytes).subrange(offset, offset + bytes.len()) == bytes,
        offset + bytes.len() <= log.len() ==> apply_write(log, offset, bytes).len() == log.len(),
        offset == log.len() ==> apply_write(log, offset, bytes) == log + bytes,
{
    assert(apply_write(log, offset, bytes).subrange(offset, offset + bytes.len()) =~= bytes);
    if offset == log.len() {
        assert(apply_write(log, offset, bytes) =~= log + bytes);
    }
}

/// Appending leaves the bytes already there as they were.
pub proof fn lemma_append_keeps(log: Seq<u8>, bytes: Seq<u8>, a: int, b: int)
    requires
        0 <= a <= b <= log.len(),
    ensures
        (log + bytes).subrange(a, b) == log.subrange(a, b),
{
    assert((log + bytes).subrange(a, b) =~= log.subrange(a, b));
}

/// The index, the append cursor, and what the log holds as far as the writes
/// handed out have made it.
pub struct Engine {
    index: Index,
    next_offset: u64,
    log: Ghost<Seq<u8>>,
    records: Ghost<Map<Seq<u8>, Record>>,
}

impl Engine {
    /// Where each key's latest record lies.
    pub closed spec fn locations(self) -> Map<Seq<u8>, IndexValue> {
        self.index@
    }

    /// The bytes of the log.
    pub closed spec fn log(self) -> Seq<u8> {
        self.log@
    }

    /// Where the next record is appended.
    pub closed spec fn cursor(self) -> u64 {
        self.next_offset
    }

    /// The log holds, at the location of `k`, the live record of `k`.
    #[verifier::opaque]
    spec fn holds(self, k: Seq<u8>) -> bool {
        let loc = self.index@[k];
        let r = self.records@[k];
        &&& self.records@.contains_key(k)
        &&& r.well_formed()
        &&& r.active
        &&& r.key == k
        &&& loc.file_id == 0
        &&& loc.size == r.encoding().len()
        &&& loc.offset + loc.size <= self.log@.len()
        &&& self.log@.subrange(loc.offset as int, loc.offset + loc.size) == r.encoding()
    }

    /// The index is sound, the cursor is the log's end, every indexed location
    /// holds its key's live record, and no two keys share a byte.
    #[verifier::opaque]
    pub closed spec fn wf(self) -> bool {
        &&& self.index.wf()
        &&& self.log@.len() == self.next_offset
        &&& forall|k: Seq<u8>| #[trigger] self.index@.contains_key(k) ==> self.holds(k)
        &&& forall|k1: Seq<u8>, k2: Seq<u8>|
            #[trigger] self.index@.contains_key(k1) && #[trigger] self.index@.contains_key(k2)
                && k1 != k2 ==> disjoint(self.index@[k1], self.index@[k2])
    }

    /// Every location in the index holds the live record of its own key.
    pub proof fn lemma_locations_hold_live_records(self, k: Seq<u8>)
        requires
            self.wf(),
            self.locations().contains_key(k),
        ensures
            record_at(self.log(), self.locations()[k]) is Ok,
            record_at(self.log(), self.locations()[k])->Ok_0.active,
            record_at(self.log(), self.locations()[k])->Ok_0.key == k,
            record_at(self.log(), self.locations()[k])->Ok_0.well_formed(),
            self.locations()[k].offset + self.locations()[k].size <= self.log().len(),
    {
        reveal(Engine::wf);
        reveal(Engine::holds);
        assert(self.holds(k));
        lemma_round_trip(self.records@[k]);
    }

    /// A store over an empty log, with an empty index.
    pub fn new() -> (r: Engine)
        ensures
            r.wf(),
            r.locations() == Map::<Seq<u8>, IndexValue>::empty(),
            r.log() == Seq::<u8>::empty(),
            r.cursor() == 0,
    {
        proof {
            reveal(Engine::wf);
        }
        Engine { index: Index::new(), next_offset: 0, log: Ghost(Seq::empty()), records: Ghost(Map::empty()) }
    }

    /// Where the next record is appended.
    pub fn next_offset(&self) -> (r: u64)
        ensures
            r == self.cursor(),
    {
        self.next_offset
    }

    /// Where the latest record of `key` lies; `KeyNotFound` when it was never inserted.
    pub fn locate(&self, key: &Vec<u8>) -> (r: Result<IndexValue, EngineError>)
        requires
            self.wf(),
        ensures
            match r {
                Ok(loc) => self.locations().contains_key(key@) && loc == self.locations()[key@],
                Err(e) => !self.locations().contains_key(key@) && e == EngineError::KeyNotFound,
            },
    {
        proof {
            reveal(Engine::wf);
        }
        let k = copy_range(key, 0, key.len());
        assert(k@ =~= key@);
        match self.index.lookup(k) {
            Ok(loc) => Ok(loc),
            Err(_) => Err(EngineError::KeyNotFound),
        }
    }
    /// The record that the log holds at the location of `k`.
    proof fn lemma_record_of(self, k: Seq<u8>) -> (rec: Record)
        requires
            self.wf(),
            self.index@.contains_key(k),
        ensures
            self.index.wf(),
            rec.well_formed(),
            rec.active,
            rec.key == k,
            rec.encoding().len() == self.index@[k].size,
            self.index@[k].offset + self.index@[k].size <= self.log@.len(),
            self.log@.subrange(self.index@[k].offset as int, self.index@[k].offset + self.index@[k].size)
                == rec.encoding(),
            record_at(self.log@, self.index@[k]) == Ok::<Record, EngineError>(rec),
    {
        reveal(Engine::wf);
        reveal(Engine::holds);
        assert(self.holds(k));
        lemma_round_trip(self.records@[k]);
        self.records@[k]
    }

    /// A sound store has a sound index.
    proof fn lemma_index_wf(self)
        requires
            self.wf(),
        ensures
            self.index.wf(),
    {
        reveal(Engine::wf);
    }

    /// Overwriting the location of `key` leaves every other key's record where it was.
    proof fn lemma_overwrite_keeps_others(self, key: Seq<u8>, bytes: Seq<u8>)
        requires
            self.wf(),
            self.index@.contains_key(key),
            bytes.len() == self.index@[key].size,
        ensures
            ({
                let loc = self.index@[key];
                let after = apply_write(self.log@, loc.offset as int, bytes);
                &&& after.len() == self.log@.len()
                &&& forall|k: Seq<u8>|
                    k != key && #[trigger] self.index@.contains_key(k) ==> after.subrange(
                        self.index@[k].offset as int,
                        self.index@[k].offset + self.index@[k].size,
                    ) == self.log@.subrange(
                        self.index@[k].offset as int,
                        self.index@[k].offset + self.index@[k].size,
                    )
            }),
    {
        reveal(Engine::wf);
        reveal(Engine::holds);
        let loc = self.index@[key];
        assert(self.holds(key));
        lemma_apply_write_here(self.log@, loc.offset as int, bytes);
        assert forall|k: Seq<u8>| k != key && #[trigger] self.index@.contains_key(k) implies apply_write(
            self.log@,
            loc.offset as int,
            bytes,
        ).subrange(self.index@[k].offset as int, self.index@[k].offset + self.index@[k].size)
            == self.log@.subrange(
            self.index@[k].offset as int,
            self.index@[k].offset + self.index@[k].size,
        ) by {
            assert(self.holds(k));
            assert(disjoint(loc, self.index@[k]));
            lemma_apply_write_elsewhere(
                self.log@,
                loc.offset as int,
                bytes,
                self.index@[k].offset as int,
                self.index@[k].offset + self.index@[k].size,
            );
        }
    }

    /// Appending the live record of `key` to a log that differs from this one only
    /// at the old location of `key`, and pointing `key` at it, keeps the store whole.
    proof fn lemma_append_keeps_whole(self, post: Engine, key: Seq<u8>, live: Record, log1: Seq<u8>)
        requires
            self.wf(),
            live.well_formed(),
            live.active,
            live.key == key,
            log1.len() == self.log@.len(),
            forall|k: Seq<u8>|
                k != key && #[trigger] self.index@.contains_key(k) ==> log1.subrange(
                    self.index@[k].offset as int,
                    self.index@[k].offset + self.index@[k].size,
                ) == self.log@.subrange(
                    self.index@[k].offset as int,
                    self.index@[k].offset + self.index@[k].size,
                ),
            post.index.wf(),
            post.index@ == self.index@.insert(
                key,
                IndexValue {
                    timestamp: post.index@[key].timestamp,
                    file_id: 0,
                    offset: self.next_offset,
                    size: live.encoding().len() as u64,
                },
            ),
            post.log@ == log1 + live.encoding(),
            post.records@ == self.records@.insert(key, live),
            post.next_offset == self.next_offset + live.encoding().len(),
        ensures
            post.wf(),
            record_at(post.log@, post.index@[key]) == Ok::<Record, EngineError>(live),
            forall|k: Seq<u8>|
                k != key && #[trigger] self.index@.contains_key(k) ==> record_at(
                    post.log@,
                    self.index@[k],
                ) == record_at(self.log@, self.index@[k]),
    {
        reveal(Engine::wf);
        reveal(Engine::holds);
        let cursor = self.next_offset as int;
        let n = live.encoding().len() as int;
        lemma_round_trip(live);
        lemma_apply_write_here(log1, cursor, live.encoding());
        assert(post.log@.subrange(cursor, cursor + n) =~= live.encoding());
        assert forall|k: Seq<u8>| k != key && #[trigger] self.index@.contains_key(k) implies post.log@.subrange(
            self.index@[k].offset as int,
            self.index@[k].offset + self.index@[k].size,
        ) == self.log@.subrange(self.index@[k].offset as int, self.index@[k].offset + self.index@[k].size) by {
            assert(self.holds(k));
            lemma_append_keeps(
                log1,
                live.encoding(),
                self.index@[k].offset as int,
                self.index@[k].offset + self.index@[k].size,
            );
        }
        assert forall|k: Seq<u8>| #[trigger] post.index@.contains_key(k) implies post.holds(k) by {
            if k != key {
                assert(self.index@.contains_key(k));
                assert(self.holds(k));
            }
        }
        assert forall|k1: Seq<u8>, k2: Seq<u8>|
            #[trigger] post.index@.contains_key(k1) && #[trigger] post.index@.contains_key(k2) && k1
                != k2 implies disjoint(post.index@[k1], post.index@[k2]) by {
            if k1 != key && k2 != key {
                assert(self.index@.contains_key(k1) && self.index@.contains_key(k2));
            } else if k1 == key {
                assert(self.index@.contains_key(k2));
                assert(self.holds(k2));
            } else {
                assert(self.index@.contains_key(k1));
                assert(self.holds(k1));
            }
        }
    }

    /// The bytes that mark `prior`'s record as superseded, at the same length.
    fn tombstone_of(prior: Option<Vec<u8>>, size: u64) -> (r: Result<Vec<u8>, EngineError>)
        ensures
            match r {
                Ok(t) => prior matches Some(b) && decode(b@) is Ok && t@ == decode(b@)->Ok_0.tombstoned().encoding()
                    && t@.len() == size,
                Err(e) => tombstone_failure(prior, size) == Some(e),
            },
            forall|rec: Record|
                rec.well_formed() && rec.encoding().len() == size && supplies(prior, rec.encoding())
                    ==> (r matches Ok(t) && t@ == rec.tombstoned().encoding()),
    {
        let bytes = match prior {
            Some(b) => b,
            None => {
                return Err(EngineError::TruncatedRecord);
            },
        };
        let mut stale = match Entry::from_bytes(&bytes) {
            Ok(e) => e,
            Err(e) => {
                proof {
                    assert forall|rec: Record|
                        rec.well_formed() && supplies(Some(bytes), rec.encoding()) implies false by {
                        lemma_round_trip(rec);
                    }
                }
                return Err(e);
            },
        };
        let ghost before = stale@;
        stale.tombstone();
        let tombstone = stale.as_bytes();
        proof {
            assert forall|rec: Record|
                rec.well_formed() && rec.encoding().len() == size && supplies(Some(bytes), rec.encoding())
                    implies tombstone@ == rec.tombstoned().encoding() && tombstone@.len() == size by {
                lemma_round_trip(rec);
                assert(before == rec);
                assert(rec.tombstoned().well_formed());
                lemma_round_trip(rec.tombstoned());
            }
        }
        if tombstone.len() as u64 != size {
            return Err(EngineError::TruncatedRecord);
        }
        Ok(tombstone)
    }

    /// Inserts the key and value of `entry` as the key's live record, stamped with
    /// the entry's timestamp, and returns the writes that the log must receive, in
    /// order. Where the key already has a record, `prior` holds the bytes read from
    /// its location: that record is stored again with its active flag cleared and
    /// its checksum made anew, in place and at the same length. The new record is
    /// appended at the cursor, the index points the key at it, and the cursor moves
    /// past it.
    ///
    /// Fails only where the key has a record and `prior` is not what the log holds
    /// there: `TruncatedRecord` where `prior` is missing, too short, or of another
    /// length once re-encoded; `ChecksumMismatch` where its checksum is wrong. The
    /// store is then left as it was.
    pub fn insert(&mut self, entry: Entry, prior: Option<Vec<u8>>) -> (r: Result<Vec<LogWrite>, EngineError>)
        requires
            old(self).wf(),
            old(self).cursor() + HEADER_LEN + entry.key@.len() + entry.value@.len() <= u64::MAX,
        ensures
            final(self).wf(),
            ({
                let key = entry.key@;
                let live = Record::live(key, entry.value@, entry.timestamp);
                let n = live.encoding().len();
                let new_loc = IndexValue {
                    timestamp: entry.timestamp,
                    file_id: 0,
                    offset: old(self).cursor(),
                    size: n as u64,
                };
                let had = old(self).locations().contains_key(key);
                let old_loc = old(self).locations()[key];
                let stale = old(self).log().subrange(old_loc.offset as int, old_loc.offset + old_loc.size);
                match r {
                    Ok(writes) => {
                        &&& final(self).locations() == old(self).locations().insert(key, new_loc)
                        &&& final(self).cursor() == old(self).cursor() + n
                        &&& n == HEADER_LEN + key.len() + entry.value@.len()
                        &&& record_at(final(self).log(), new_loc) == Ok::<Record, EngineError>(live)
                        &&& forall|k: Seq<u8>|
                            k != key && #[trigger] old(self).locations().contains_key(k) ==> record_at(
                                final(self).log(),
                                old(self).locations()[k],
                            ) == record_at(old(self).log(), old(self).locations()[k])
                        &&& writes@.len() == (if had { 2int } else { 1int })
                        &&& writes@.last().offset == old(self).cursor()
                        &&& writes@.last().bytes@ == live.encoding()
                        &&& !had ==> final(self).log() == old(self).log() + live.encoding()
                        &&& had ==> tombstone_failure(prior, old_loc.size) is None
                        &&& had ==> (prior matches Some(b) && writes@[0].bytes@ == decode(
                            b@,
                        )->Ok_0.tombstoned().encoding())
                        &&& had ==> writes@[0].offset == old_loc.offset && writes@[0].bytes@.len()
                            == old_loc.size && final(self).log() == apply_write(
                            old(self).log(),
                            old_loc.offset as int,
                            writes@[0].bytes@,
                        ) + live.encoding()
                        &&& had && supplies(prior, stale) ==> record_at(final(self).log(), old_loc)
                            == Ok::<Record, EngineError>(
                            record_at(old(self).log(), old_loc)->Ok_0.tombstoned(),
                        )
                    },
                    Err(e) => {
                        &&& *final(self) == *old(self)
                        &&& had
                        &&& !supplies(prior, stale)
                        &&& tombstone_failure(prior, old_loc.size) == Some(e)
                    },
                }
            }),
    {
        let ghost key = entry.key@;
        let timestamp = entry.timestamp;
        let key_copy = copy_range(&entry.key, 0, entry.key.len());
        assert(key_copy@ =~= key);
        let mut fresh = Entry::with_timestamp(entry.key, entry.value, timestamp);
        let ghost live = fresh@;
        let encoded = fresh.as_bytes();
        proof {
            lemma_round_trip(live);
        }
        let n = encoded.len();
        let cursor = self.next_offset;
        let mut writes: Vec<LogWrite> = Vec::new();
        let ghost mut log1 = self.log@;
        let probe = copy_range(&key_copy, 0, key_copy.len());
        assert(probe@ =~= key);
        proof {
            self.lemma_index_wf();
        }
        match self.index.lookup(probe) {
            Ok(loc) => {
                let ghost rec = self.lemma_record_of(key);
                let tombstone = match Engine::tombstone_of(prior, loc.size) {
                    Ok(t) => t,
                    Err(e) => {
                        return Err(e);
                    },
                };
                proof {
                    self.lemma_overwrite_keeps_others(key, tombstone@);
                    lemma_apply_write_here(self.log@, loc.offset as int, tombstone@);
                    log1 = apply_write(self.log@, loc.offset as int, tombstone@);
                    if supplies(prior, rec.encoding()) {
                        assert(rec.tombstoned().well_formed());
                        lemma_round_trip(rec.tombstoned());
                        lemma_append_keeps(log1, live.encoding(), loc.offset as int, loc.offset + loc.size);
                    }
                }
                writes.push(LogWrite { offset: loc.offset, bytes: tombstone });
            },
            Err(_) => {},
        }
        writes.push(LogWrite { offset: cursor, bytes: encoded });
        let new_loc = IndexValue::new(timestamp, 0, cursor, n as u64);
        let ghost pre = *self;
        self.index.update(key_copy, new_loc);
        self.next_offset = cursor + n as u64;
        self.log = Ghost(log1 + live.encoding());
        self.records = Ghost(self.records@.insert(key, live));
        proof {
            pre.lemma_append_keeps_whole(*self, key, live, log1);
        }
        Ok(writes)
    }
}

} // verus!
