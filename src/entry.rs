//! The log record and its byte layout: checksum, active flag, timestamp, key
//! size and value size in little-endian order, then the key and the value.
use vstd::prelude::*;

use crate::bytes::{
    copy_range, get_le, le_bytes, le_value, lemma_le_round_trip, lemma_le_value_bound,
    lemma_pow256_values, pow256, push_all, put_le,
};
use crate::checksum::{crc64, crc64_of};
use crate::error::EngineError;
use crate::util::get_micros_since_epoch;

verus! {

/// Bytes before the key: checksum 8, active 1, timestamp 16, key size 8, value size 8.
pub const HEADER_LEN: usize = 41;

/// The fields of a record as mathematical values.
pub struct Record {
    pub checksum: u64,
    pub active: bool,
    pub timestamp: u128,
    pub key_size: usize,
    pub value_size: usize,
    pub key: Seq<u8>,
    pub value: Seq<u8>,
}

/// The byte that stores the active flag.
pub open spec fn active_byte(active: bool) -> u8 {
    if active {
        1
    } else {
        0
    }
}

impl Record {
    /// The bytes the checksum covers: every field but the checksum, in layout order.
    pub open spec fn digest_image(self) -> Seq<u8> {
        seq![active_byte(self.active)] + le_bytes(self.timestamp as nat, 16) + le_bytes(
            self.key_size as nat,
            8,
        ) + le_bytes(self.value_size as nat, 8) + self.key + self.value
    }

    /// The record as it is laid out in the log.
    pub open spec fn encoding(self) -> Seq<u8> {
        le_bytes(self.checksum as nat, 8) + self.digest_image()
    }

    /// The sizes match the key and value, and the checksum is their digest.
    pub open spec fn well_formed(self) -> bool {
        &&& self.key_size == self.key.len()
        &&& self.value_size == self.value.len()
        &&& self.checksum == crc64_of(self.digest_image())
    }

    /// The live record of `key` and `value` stamped with `timestamp`, as a new entry holds it.
    pub open spec fn live(key: Seq<u8>, value: Seq<u8>, timestamp: u128) -> Record {
        let unsealed = Record {
            checksum: 0,
            active: true,
            timestamp,
            key_size: key.len() as usize,
            value_size: value.len() as usize,
            key,
            value,
        };
        Record { checksum: crc64_of(unsealed.digest_image()), ..unsealed }
    }

    /// The same record with its active flag cleared and its checksum made anew.
    pub open spec fn tombstoned(self) -> Record {
        let cleared = Record { active: false, ..self };
        Record { checksum: crc64_of(cleared.digest_image()), ..cleared }
    }
}

/// The record that the bytes `b` begin with, or why there is none.
pub open spec fn decode(b: Seq<u8>) -> Result<Record, EngineError> {
    if b.len() < HEADER_LEN {
        Err(EngineError::TruncatedRecord)
    } else {
        let key_size = le_value(b.subrange(25, 33));
        let value_size = le_value(b.subrange(33, 41));
        if b.len() < HEADER_LEN + key_size + value_size {
            Err(EngineError::TruncatedRecord)
        } else {
            let key_end = HEADER_LEN + key_size;
            let r = Record {
                checksum: le_value(b.subrange(0, 8)) as u64,
                active: b[8] == 1,
                timestamp: le_value(b.subrange(9, 25)) as u128,
                key_size: key_size as usize,
                value_size: value_size as usize,
                key: b.subrange(HEADER_LEN as int, key_end),
                value: b.subrange(key_end, key_end + value_size),
            };
            if r.checksum == crc64_of(r.digest_image()) {
                Ok(r)
            } else {
                Err(EngineError::ChecksumMismatch)
            }
        }
    }
}

/// Decoding the bytes of a well-formed record gives the record back.
pub proof fn lemma_round_trip(r: Record)
    requires
        r.well_formed(),
    ensures
        decode(r.encoding()) == Ok::<Record, EngineError>(r),
        r.encoding().len() == HEADER_LEN + r.key.len() + r.value.len(),
{
    lemma_pow256_values();
    let c = le_bytes(r.checksum as nat, 8);
    let t = le_bytes(r.timestamp as nat, 16);
    let k = le_bytes(r.key_size as nat, 8);
    let v = le_bytes(r.value_size as nat, 8);
    lemma_le_round_trip(r.checksum as nat, 8);
    lemma_le_round_trip(r.timestamp as nat, 16);
    lemma_le_round_trip(r.key_size as nat, 8);
    lemma_le_round_trip(r.value_size as nat, 8);
    let e = r.encoding();
    assert(e =~= c + seq![active_byte(r.active)] + t + k + v + r.key + r.value);
    let ks = r.key.len() as int;
    let vs = r.value.len() as int;
    assert(e.subrange(0, 8) =~= c);
    assert(e.subrange(9, 25) =~= t);
    assert(e.subrange(25, 33) =~= k);
    assert(e.subrange(33, 41) =~= v);
    assert(e.subrange(41, 41 + ks) =~= r.key);
    assert(e.subrange(41 + ks, 41 + ks + vs) =~= r.value);
    assert(e[8] == active_byte(r.active));
}

/// Records that differ in any field the checksum covers have different digest images.
pub proof fn lemma_digest_image_injective(a: Record, b: Record)
    requires
        a.digest_image() == b.digest_image(),
    ensures
        a.active == b.active,
        a.timestamp == b.timestamp,
        a.key_size == b.key_size,
        a.value_size == b.value_size,
        a.key_size == a.key.len() && b.key_size == b.key.len() ==> a.key == b.key && a.value
            == b.value,
{
    lemma_pow256_values();
    let ia = a.digest_image();
    let ib = b.digest_image();
    lemma_le_round_trip(a.timestamp as nat, 16);
    lemma_le_round_trip(b.timestamp as nat, 16);
    lemma_le_round_trip(a.key_size as nat, 8);
    lemma_le_round_trip(b.key_size as nat, 8);
    lemma_le_round_trip(a.value_size as nat, 8);
    lemma_le_round_trip(b.value_size as nat, 8);
    assert(ia.subrange(1, 17) =~= le_bytes(a.timestamp as nat, 16));
    assert(ib.subrange(1, 17) =~= le_bytes(b.timestamp as nat, 16));
    assert(ia.subrange(17, 25) =~= le_bytes(a.key_size as nat, 8));
    assert(ib.subrange(17, 25) =~= le_bytes(b.key_size as nat, 8));
    assert(ia.subrange(25, 33) =~= le_bytes(a.value_size as nat, 8));
    assert(ib.subrange(25, 33) =~= le_bytes(b.value_size as nat, 8));
    assert(ia[0] == active_byte(a.active));
    assert(ib[0] == active_byte(b.active));
    if a.key_size == a.key.len() && b.key_size == b.key.len() {
        let ka = a.key.len() as int;
        assert(ia.subrange(33, 33 + ka) =~= a.key);
        assert(ib.subrange(33, 33 + ka) =~= b.key);
        assert(ia.subrange(33 + ka, ia.len() as int) =~= a.value);
        assert(ib.subrange(33 + ka, ib.len() as int) =~= b.value);
    }
}

/// One record of the log.
#[derive(Debug, Clone)]
pub struct Entry {
    /// CRC-64 of the fields below, in layout order.
    pub checksum: u64,
    /// Cleared once a later record of the same key supersedes this one.
    pub active: bool,
    /// Microseconds since the Unix epoch when the record was made.
    pub timestamp: u128,
    /// Length of `key`, as stored.
    pub key_size: usize,
    /// Length of `value`, as stored.
    pub value_size: usize,
    pub key: Vec<u8>,
    pub value: Vec<u8>,
}

impl View for Entry {
    type V = Record;

    open spec fn view(&self) -> Record {
        Record {
            checksum: self.checksum,
            active: self.active,
            timestamp: self.timestamp,
            key_size: self.key_size,
            value_size: self.value_size,
            key: self.key@,
            value: self.value@,
        }
    }
}

impl Entry {
    /// A live record of `key` and `value` stamped with `timestamp`, its checksum computed.
    pub fn with_timestamp(key: Vec<u8>, value: Vec<u8>, timestamp: u128) -> (r: Entry)
        ensures
            r@ == Record::live(key@, value@, timestamp),
            r@.active,
            r@.timestamp == timestamp,
            r@.key == key@,
            r@.value == value@,
            r@.well_formed(),
    {
        let key_size = key.len();
        let value_size = value.len();
        let mut entry = Entry {
            checksum: 0,
            active: true,
            timestamp,
            key_size,
            value_size,
            key,
            value,
        };
        entry.checksum = entry.calculate_checksum();
        entry
    }

    /// A live record of `key` and `value` stamped with the current time.
    pub fn new(key: Vec<u8>, value: Vec<u8>) -> (r: Entry)
        ensures
            r@.active,
            r@.key == key@,
            r@.value == value@,
            r@.well_formed(),
    {
        let timestamp = get_micros_since_epoch();
        Entry::with_timestamp(key, value, timestamp)
    }

    /// The bytes that the checksum covers.
    fn digest_bytes(&self) -> (r: Vec<u8>)
        ensures
            r@ == self@.digest_image(),
    {
        proof {
            lemma_pow256_values();
        }
        let mut data: Vec<u8> = Vec::new();
        data.push(if self.active { 1u8 } else { 0u8 });
        put_le(&mut data, self.timestamp, 16);
        put_le(&mut data, self.key_size as u128, 8);
        put_le(&mut data, self.value_size as u128, 8);
        push_all(&mut data, &self.key);
        push_all(&mut data, &self.value);
        assert(data@ =~= self@.digest_image());
        data
    }

    /// The checksum of every field but the stored checksum itself.
    pub fn calculate_checksum(&mut self) -> (r: u64)
        ensures
            *final(self) == *old(self),
            r == crc64_of(old(self)@.digest_image()),
    {
        let data = self.digest_bytes();
        crc64(&data)
    }

    /// The record laid out as it is stored in the log.
    pub fn as_bytes(&mut self) -> (r: Vec<u8>)
        ensures
            *final(self) == *old(self),
            r@ == old(self)@.encoding(),
    {
        proof {
            lemma_pow256_values();
        }
        let mut data: Vec<u8> = Vec::new();
        put_le(&mut data, self.checksum as u128, 8);
        let digested = self.digest_bytes();
        push_all(&mut data, &digested);
        data
    }

    /// Reads the record that `b` begins with, and checks its checksum.
    pub fn from_bytes(b: &Vec<u8>) -> (r: Result<Entry, EngineError>)
        ensures
            match r {
                Ok(e) => decode(b@) == Ok::<Record, EngineError>(e@),
                Err(x) => decode(b@) == Err::<Record, EngineError>(x),
            },
    {
        let n = b.len();
        if n < HEADER_LEN {
            return Err(EngineError::TruncatedRecord);
        }
        proof {
            lemma_pow256_values();
            lemma_le_value_bound(b@.subrange(0, 8));
            lemma_le_value_bound(b@.subrange(25, 33));
            lemma_le_value_bound(b@.subrange(33, 41));
        }
        let key_size_read = get_le(b, 25, 8);
        let value_size_read = get_le(b, 33, 8);
        if key_size_read > (n - HEADER_LEN) as u128 {
            return Err(EngineError::TruncatedRecord);
        }
        let key_size = key_size_read as usize;
        if value_size_read > (n - HEADER_LEN - key_size) as u128 {
            return Err(EngineError::TruncatedRecord);
        }
        let value_size = value_size_read as usize;
        let key_end = HEADER_LEN + key_size;
        let mut entry = Entry {
            checksum: get_le(b, 0, 8) as u64,
            active: b[8] == 1,
            timestamp: get_le(b, 9, 16),
            key_size,
            value_size,
            key: copy_range(b, HEADER_LEN, key_end),
            value: copy_range(b, key_end, key_end + value_size),
        };
        if entry.calculate_checksum() == entry.checksum {
            Ok(entry)
        } else {
            Err(EngineError::ChecksumMismatch)
        }
    }

    /// Clears the active flag; the checksum is left as it was.
    pub fn mark_inactive(&mut self)
        ensures
            final(self)@ == (Record { active: false, ..old(self)@ }),
    {
        self.active = false;
    }

    /// Stores the digest of the current fields as the checksum.
    pub fn refresh_checksum(&mut self)
        ensures
            final(self)@ == (Record { checksum: crc64_of(old(self)@.digest_image()), ..old(self)@ }),
    {
        self.checksum = self.calculate_checksum();
    }

    /// Clears the active flag and makes the checksum anew, as a superseded record is stored.
    pub fn tombstone(&mut self)
        ensures
            final(self)@ == old(self)@.tombstoned(),
    {
        self.mark_inactive();
        self.refresh_checksum();
    }

    /// Whether the record is live.
    pub fn is_active(&self) -> (r: bool)
        ensures
            r == self@.active,
    {
        self.active
    }

    /// When the record was made.
    pub fn timestamp(&self) -> (r: u128)
        ensures
            r == self@.timestamp,
    {
        self.timestamp
    }

    /// The stored checksum.
    pub fn checksum(&self) -> (r: u64)
        ensures
            r == self@.checksum,
    {
        self.checksum
    }
}

} // verus!
