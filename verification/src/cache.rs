//! The persistent size cache: a key/value store mapping a directory path to
//! the directory's last computed size and the modification time observed
//! when it was computed.
//!
//! The store itself is an embedded on-disk database; its contents are
//! modelled by the uninterpreted `stored_map`. Records are framed by this
//! module's own fixed-width codec, proved to round-trip, so a stored record
//! that does not decode is surfaced as corruption, never silently treated
//! as a miss.
use crate::FsError;
use vstd::prelude::*;

verus! {

#[verifier::external_type_specification]
#[verifier::external_body]
pub struct ExDb(sled::Db);

/// The key/value pairs the store currently holds, keyed by the path text.
pub uninterp spec fn stored_map(db: sled::Db) -> Map<Seq<char>, Seq<u8>>;

/// A persisted record: a directory's computed size and the modification
/// time read when the computation started.
#[derive(Clone, Copy, PartialEq, Eq, Structural, Debug)]
pub struct CacheRecord {
    pub size: u64,
    pub last_modified: u64,
}

/// The little-endian bytes of one 64-bit value, low byte first.
pub open spec fn le_bytes(v: u64) -> Seq<u8> {
    seq![
        (v & 0xff) as u8,
        ((v >> 8) & 0xff) as u8,
        ((v >> 16) & 0xff) as u8,
        ((v >> 24) & 0xff) as u8,
        ((v >> 32) & 0xff) as u8,
        ((v >> 40) & 0xff) as u8,
        ((v >> 48) & 0xff) as u8,
        ((v >> 56) & 0xff) as u8,
    ]
}

/// The 64-bit value read from eight little-endian bytes.
pub open spec fn u64_from_le(b: Seq<u8>) -> u64
    recommends
        b.len() == 8,
{
    (b[0] as u64) | ((b[1] as u64) << 8) | ((b[2] as u64) << 16) | ((b[3] as u64) << 24) | ((
    b[4] as u64) << 32) | ((b[5] as u64) << 40) | ((b[6] as u64) << 48) | ((b[7] as u64) << 56)
}

/// The 16-byte frame of a record: size, then modification time.
pub open spec fn record_bytes(r: CacheRecord) -> Seq<u8> {
    le_bytes(r.size) + le_bytes(r.last_modified)
}

/// What 16 bytes decode to; anything of another length is corrupt.
pub open spec fn spec_decode(b: Seq<u8>) -> Option<CacheRecord> {
    if b.len() == 16 {
        Option::Some(
            CacheRecord {
                size: u64_from_le(b.subrange(0, 8)),
                last_modified: u64_from_le(b.subrange(8, 16)),
            },
        )
    } else {
        Option::None
    }
}

/// Reading back the little-endian bytes of a value gives the value.
proof fn lemma_le_roundtrip(v: u64)
    ensures
        u64_from_le(le_bytes(v)) == v,
{
    assert(((v & 0xff) as u8 as u64) | (((v >> 8) & 0xff) as u8 as u64) << 8 | (((v >> 16)
        & 0xff) as u8 as u64) << 16 | (((v >> 24) & 0xff) as u8 as u64) << 24 | (((v >> 32)
        & 0xff) as u8 as u64) << 32 | (((v >> 40) & 0xff) as u8 as u64) << 40 | (((v >> 48)
        & 0xff) as u8 as u64) << 48 | (((v >> 56) & 0xff) as u8 as u64) << 56 == v)
        by (bit_vector);
}

/// LAW: the record codec round-trips: decoding an encoded record gives the
/// record back.
pub proof fn lemma_record_roundtrip(r: CacheRecord)
    ensures
        spec_decode(record_bytes(r)) == Option::Some(r),
{
    assert(record_bytes(r).subrange(0, 8) =~= le_bytes(r.size));
    assert(record_bytes(r).subrange(8, 16) =~= le_bytes(r.last_modified));
    lemma_le_roundtrip(r.size);
    lemma_le_roundtrip(r.last_modified);
}

/// Encode a record into its 16-byte frame.
pub fn encode_record(r: &CacheRecord) -> (out: Vec<u8>)
    ensures
        out@ == record_bytes(*r),
        spec_decode(out@) == Option::Some(*r),
{
    let mut out: Vec<u8> = Vec::new();
    push_le_bytes(&mut out, r.size);
    push_le_bytes(&mut out, r.last_modified);
    proof {
        assert(out@ =~= record_bytes(*r));
        lemma_record_roundtrip(*r);
    }
    out
}

/// Append the eight little-endian bytes of one value.
fn push_le_bytes(out: &mut Vec<u8>, v: u64)
    ensures
        final(out)@ == old(out)@ + le_bytes(v),
{
    let ghost base = out@;
    out.push((v & 0xff) as u8);
    out.push(((v >> 8) & 0xff) as u8);
    out.push(((v >> 16) & 0xff) as u8);
    out.push(((v >> 24) & 0xff) as u8);
    out.push(((v >> 32) & 0xff) as u8);
    out.push(((v >> 40) & 0xff) as u8);
    out.push(((v >> 48) & 0xff) as u8);
    out.push(((v >> 56) & 0xff) as u8);
    proof {
        assert(out@ =~= base + le_bytes(v));
    }
}

/// Read one value from eight bytes starting at `at`.
fn read_le_u64(bytes: &Vec<u8>, at: usize) -> (v: u64)
    requires
        at + 8 <= bytes@.len(),
    ensures
        v == u64_from_le(bytes@.subrange(at as int, at as int + 8)),
{
    let n = bytes.len();
    proof {
        assert(n == bytes@.len());
    }
    let v = (bytes[at] as u64) | ((bytes[at + 1] as u64) << 8) | ((bytes[at + 2] as u64) << 16) | ((
    bytes[at + 3] as u64) << 24) | ((bytes[at + 4] as u64) << 32) | ((bytes[at + 5] as u64) << 40)
        | ((bytes[at + 6] as u64) << 48) | ((bytes[at + 7] as u64) << 56);
    proof {
        let s = bytes@.subrange(at as int, at as int + 8);
        assert(forall|k: int| 0 <= k < 8 ==> s[k] == bytes@[at + k]);
    }
    v
}

/// Decode a stored frame; `None` means the frame is corrupt.
pub fn decode_record(bytes: &Vec<u8>) -> (r: Option<CacheRecord>)
    ensures
        r == spec_decode(bytes@),
{
    if bytes.len() != 16 {
        None
    } else {
        let size = read_le_u64(bytes, 0);
        let last_modified = read_le_u64(bytes, 8);
        Some(CacheRecord { size, last_modified })
    }
}

/// The persistent size cache around the embedded store, with a diagnostic
/// count of how many directory enumerations the cache-aware walk performed.
/// Records are only ever added or overwritten, never evicted: the store
/// grows for its whole life.
pub struct SizeCache {
    pub(crate) db: sled::Db,
    pub(crate) enum_count: usize,
}

impl SizeCache {
    /// The records the backing store currently holds.
    pub closed spec fn stored(self) -> Map<Seq<char>, Seq<u8>> {
        stored_map(self.db)
    }

    /// How many directory enumerations cache-aware walks have done.
    pub closed spec fn enumerations(self) -> usize {
        self.enum_count
    }

    /// Wrap an opened store.
    pub fn new(db: sled::Db) -> (r: SizeCache)
        ensures
            r.stored() == stored_map(db),
            r.enumerations() == 0,
    {
        SizeCache { db, enum_count: 0 }
    }

    /// The diagnostic enumeration count.
    pub fn enum_count(&self) -> (r: usize)
        ensures
            r == self.enumerations(),
    {
        self.enum_count
    }

    /// What a cache value's model is, stated where the field is visible.
    pub(crate) proof fn lemma_model(self)
        ensures
            self.stored() == stored_map(self.db),
    {
    }

    /// Count one directory enumeration.
    pub(crate) fn count_enumeration(&mut self)
        requires
            old(self).enumerations() < usize::MAX,
        ensures
            final(self).enumerations() == old(self).enumerations() + 1,
            final(self).stored() == old(self).stored(),
    {
        self.enum_count += 1;
    }

    /// Relies on sled::Tree::get (through sled::Db): returns the value
    /// stored under the key, or nothing when the key is absent; fails only
    /// when the store itself fails.
    #[verifier::external_body]
    pub(crate) fn db_get(&self, key: &String) -> (r: Result<Option<Vec<u8>>, FsError>)
        ensures
            r matches Ok(v) ==> match v {
                Option::Some(bytes) => stored_map(self.db).contains_key(key@) && bytes@
                    == stored_map(self.db)[key@],
                Option::None => !stored_map(self.db).contains_key(key@),
            },
            r matches Err(e) ==> e == FsError::Store,
    {
        match self.db.get(key.as_bytes()) {
            Ok(Some(ivec)) => Ok(Some(ivec.to_vec())),
            Ok(None) => Ok(None),
            Err(_) => Err(FsError::Store),
        }
    }

    /// Relies on sled::Tree::insert (through sled::Db): stores the value
    /// under the key, replacing what was there; fails only when the store
    /// itself fails.
    #[verifier::external_body]
    pub(crate) fn db_put(&mut self, key: &String, val: &Vec<u8>) -> (r: Result<(), FsError>)
        ensures
            final(self).enumerations() == old(self).enumerations(),
            r is Ok ==> stored_map(final(self).db) == stored_map(old(self).db).insert(key@, val@),
            r matches Err(e) ==> e == FsError::Store,
    {
        match self.db.insert(key.as_bytes(), val.as_slice()) {
            Ok(_) => Ok(()),
            Err(_) => Err(FsError::Store),
        }
    }
}

} // verus!
