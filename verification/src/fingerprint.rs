//! Content fingerprints and the per-unit fingerprint store.
//!
//! A fingerprint is a deterministic 64-bit digest of a unit's raw bytes:
//! two units with identical bytes get identical fingerprints, whatever
//! their paths. The store keeps, per unit identity, the fingerprint the
//! unit had when it was last built successfully, together with the
//! fingerprints its dependencies had at that moment.

use vstd::prelude::*;

verus! {

/// Multiplier of the 64-bit FNV-1a digest.
pub const FNV_PRIME: u64 = 0x100000001b3;

/// Starting value of the 64-bit FNV-1a digest.
pub const FNV_OFFSET: u64 = 0xcbf29ce484222325;

/// FNV-1a folded over `bytes`, starting from accumulator `acc`.
pub open spec fn spec_fnv1a(bytes: Seq<u8>, acc: u64) -> u64
    decreases bytes.len(),
{
    if bytes.len() == 0 {
        acc
    } else {
        spec_fnv1a(bytes.drop_first(), vstd::wrapping::u64_specs::wrapping_mul(acc ^ (bytes[0] as u64), FNV_PRIME))
    }
}

/// The content fingerprint of a byte string: its 64-bit FNV-1a digest.
/// A function of the bytes alone, so equal contents give equal
/// fingerprints regardless of where the bytes came from.
pub open spec fn spec_fingerprint(bytes: Seq<u8>) -> u64 {
    spec_fnv1a(bytes, FNV_OFFSET)
}

/// Computes the content fingerprint of `bytes`.
pub fn fingerprint_bytes(bytes: &[u8]) -> (digest: u64)
    ensures
        digest == spec_fingerprint(bytes@),
{
    let mut h: u64 = FNV_OFFSET;
    let mut i: usize = 0;
    proof {
        assert(bytes@.skip(0) =~= bytes@);
    }
    while i < bytes.len()
        invariant
            0 <= i <= bytes@.len(),
            spec_fnv1a(bytes@.skip(i as int), h) == spec_fingerprint(bytes@),
        decreases bytes@.len() - i,
    {
        let b = bytes[i];
        proof {
            assert(bytes@.skip(i as int)[0] == bytes@[i as int]);
            assert(bytes@.skip(i as int).drop_first() =~= bytes@.skip(i + 1));
        }
        h = (h ^ (b as u64)).wrapping_mul(FNV_PRIME);
        i = i + 1;
    }
    proof {
        assert(bytes@.skip(i as int) =~= Seq::<u8>::empty());
    }
    h
}

/// One dependency's identity and the fingerprint it had when the unit
/// owning this entry was last built.
#[derive(Clone, Debug)]
pub struct DepFingerprint {
    pub id: String,
    pub fingerprint: u64,
}

/// Persisted state of one unit: its identity, the fingerprint of its
/// content at its last successful build, when that build happened, and
/// the fingerprints its dependencies had at that time.
#[derive(Clone, Debug)]
pub struct FingerprintRecord {
    pub id: String,
    pub fingerprint: u64,
    pub built_at: u64,
    pub dep_fingerprints: Vec<DepFingerprint>,
}

/// The fingerprint recorded for dependency `id` in a record's dependency
/// list: the first matching entry, if any.
pub open spec fn dep_fp_of(entries: Seq<DepFingerprint>, id: Seq<char>) -> Option<u64>
    decreases entries.len(),
{
    if entries.len() == 0 {
        None
    } else if entries[0].id@ == id {
        Some(entries[0].fingerprint)
    } else {
        dep_fp_of(entries.drop_first(), id)
    }
}

/// The record stored for unit `id`: the first matching record, if any.
pub open spec fn stored_record(records: Seq<FingerprintRecord>, id: Seq<char>) -> Option<FingerprintRecord>
    decreases records.len(),
{
    if records.len() == 0 {
        None
    } else if records[0].id@ == id {
        Some(records[0])
    } else {
        stored_record(records.drop_first(), id)
    }
}

/// In-memory fingerprint store, keyed by unit identity. Persisting it
/// between runs is the surrounding program's business; an absent or
/// unreadable persisted state loads as an empty store, never as an
/// error.
pub struct FingerprintStore {
    pub records: Vec<FingerprintRecord>,
}

impl FingerprintStore {
    /// An empty store: no unit has a record.
    pub fn new() -> (store: FingerprintStore)
        ensures
            store.records@.len() == 0,
            forall|id: Seq<char>| stored_record(store.records@, id) is None,
    {
        FingerprintStore { records: Vec::new() }
    }

    /// Looks up the record for unit `id`.
    pub fn load(&self, id: &String) -> (found: Option<&FingerprintRecord>)
        ensures
            match found {
                Some(rec) => stored_record(self.records@, id@) == Some(*rec),
                None => stored_record(self.records@, id@) is None,
            },
    {
        let n = self.records.len();
        let mut i: usize = 0;
        proof {
            assert(self.records@.skip(0) =~= self.records@);
        }
        while i < n
            invariant
                0 <= i <= n,
                n == self.records@.len(),
                stored_record(self.records@.skip(i as int), id@) == stored_record(self.records@, id@),
            decreases n - i,
        {
            proof {
                assert(self.records@.skip(i as int)[0] == self.records@[i as int]);
                assert(self.records@.skip(i as int).drop_first() =~= self.records@.skip(i + 1));
            }
            if self.records[i].id == *id {
                return Some(&self.records[i]);
            }
            i = i + 1;
        }
        proof {
            assert(self.records@.skip(i as int) =~= Seq::<FingerprintRecord>::empty());
        }
        None
    }

    /// Persists or overwrites the record for `rec`'s unit. Every other
    /// unit's record is untouched.
    pub fn record(&mut self, rec: FingerprintRecord)
        ensures
            forall|id: Seq<char>|
                stored_record(final(self).records@, id) == if id == rec.id@ {
                    Some(rec)
                } else {
                    stored_record(old(self).records@, id)
                },
    {
        let n = self.records.len();
        let mut i: usize = 0;
        while i < n
            invariant
                0 <= i <= n,
                n == self.records@.len(),
                *self == *old(self),
                forall|j: int| 0 <= j < i ==> self.records@[j].id@ != rec.id@,
            decreases n - i,
        {
            if self.records[i].id == rec.id {
                let ghost pre = self.records@;
                proof {
                    lemma_stored_update_all(pre, i as int, rec);
                }
                self.records[i] = rec;
                return;
            }
            i = i + 1;
        }
        proof {
            lemma_stored_none_of_unmatched(self.records@, rec.id@);
            lemma_stored_push_all(self.records@, rec);
        }
        self.records.push(rec);
    }

    /// Removes every record; used by the clean operation.
    pub fn clear(&mut self)
        ensures
            final(self).records@.len() == 0,
            forall|id: Seq<char>| stored_record(final(self).records@, id) is None,
    {
        self.records = Vec::new();
    }
}

/// A unit counts as modified when it has no record at all or when its
/// current content fingerprint differs from the recorded one.
pub fn is_file_modified(store: &FingerprintStore, id: &String, current_fingerprint: u64) -> (modified: bool)
    ensures
        modified == match stored_record(store.records@, id@) {
            None => true,
            Some(rec) => rec.fingerprint != current_fingerprint,
        },
{
    match store.load(id) {
        None => true,
        Some(rec) => rec.fingerprint != current_fingerprint,
    }
}

/// A sequence none of whose records carry `id` stores nothing for `id`.
proof fn lemma_stored_none_of_unmatched(records: Seq<FingerprintRecord>, id: Seq<char>)
    requires
        forall|j: int| 0 <= j < records.len() ==> records[j].id@ != id,
    ensures
        stored_record(records, id) is None,
    decreases records.len(),
{
    if records.len() > 0 {
        assert(records.drop_first() =~= records.skip(1));
        lemma_stored_none_of_unmatched(records.drop_first(), id);
    }
}

/// Replacing the first record that carries `rec.id` changes only what is
/// stored under `rec.id`.
proof fn lemma_stored_update(records: Seq<FingerprintRecord>, i: int, rec: FingerprintRecord, id: Seq<char>)
    requires
        0 <= i < records.len(),
        forall|j: int| 0 <= j < i ==> records[j].id@ != rec.id@,
        records[i].id@ == rec.id@,
    ensures
        stored_record(records.update(i, rec), id) == if id == rec.id@ {
            Some(rec)
        } else {
            stored_record(records, id)
        },
    decreases i,
{
    let updated = records.update(i, rec);
    if i == 0 {
        if id != rec.id@ {
            assert(updated.drop_first() =~= records.drop_first());
        }
    } else {
        assert(updated[0] == records[0]);
        assert(updated.drop_first() =~= records.drop_first().update(i - 1, rec));
        if id != records[0].id@ {
            lemma_stored_update(records.drop_first(), i - 1, rec, id);
        }
    }
}

proof fn lemma_stored_update_all(records: Seq<FingerprintRecord>, i: int, rec: FingerprintRecord)
    requires
        0 <= i < records.len(),
        forall|j: int| 0 <= j < i ==> records[j].id@ != rec.id@,
        records[i].id@ == rec.id@,
    ensures
        forall|id: Seq<char>|
            stored_record(records.update(i, rec), id) == if id == rec.id@ {
                Some(rec)
            } else {
                stored_record(records, id)
            },
{
    assert forall|id: Seq<char>|
        stored_record(records.update(i, rec), id) == (if id == rec.id@ {
            Some(rec)
        } else {
            stored_record(records, id)
        }) by {
        lemma_stored_update(records, i, rec, id);
    }
}

/// Appending a record for a unit that has none changes only what is
/// stored under its identity.
proof fn lemma_stored_push(records: Seq<FingerprintRecord>, rec: FingerprintRecord, id: Seq<char>)
    requires
        stored_record(records, rec.id@) is None,
    ensures
        stored_record(records.push(rec), id) == if id == rec.id@ {
            Some(rec)
        } else {
            stored_record(records, id)
        },
    decreases records.len(),
{
    let pushed = records.push(rec);
    if records.len() == 0 {
        if id != rec.id@ {
            assert(pushed.drop_first() =~= Seq::<FingerprintRecord>::empty());
        }
    } else {
        assert(pushed[0] == records[0]);
        assert(pushed.drop_first() =~= records.drop_first().push(rec));
        if id != records[0].id@ {
            lemma_stored_push(records.drop_first(), rec, id);
        }
    }
}

proof fn lemma_stored_push_all(records: Seq<FingerprintRecord>, rec: FingerprintRecord)
    requires
        stored_record(records, rec.id@) is None,
    ensures
        forall|id: Seq<char>|
            stored_record(records.push(rec), id) == if id == rec.id@ {
                Some(rec)
            } else {
                stored_record(records, id)
            },
{
    assert forall|id: Seq<char>|
        stored_record(records.push(rec), id) == (if id == rec.id@ {
            Some(rec)
        } else {
            stored_record(records, id)
        }) by {
        lemma_stored_push(records, rec, id);
    }
}

/// Law: `record` followed by `load` gives back a record equal in all
/// fields to the one recorded. Stated over the store contents: in any
/// store contents that `record` may leave behind, the recorded unit's
/// identity maps to exactly the recorded record.
pub proof fn lemma_record_load_round_trip(before: Seq<FingerprintRecord>, after: Seq<FingerprintRecord>, rec: FingerprintRecord)
    requires
        forall|id: Seq<char>|
            stored_record(after, id) == if id == rec.id@ {
                Some(rec)
            } else {
                stored_record(before, id)
            },
    ensures
        stored_record(after, rec.id@) == Some(rec),
{
}

} // verus!
