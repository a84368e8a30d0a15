//! The storage engine: the append-only record log together with the index
//! rebuilt from it, and the `get`/`set` operations that keep the two
//! consistent.
//!
//! The engine works on the log bytes held in memory; persisting those
//! bytes (and reading them back on open) is the caller's side of the
//! bargain, which is why `set` hands back the exact bytes it appended.
//! The invariant `wf` states that the index is precisely what scanning
//! the log yields and that the next-write offset sits at the log's end;
//! the view of a store is the map from each indexed key to the raw value
//! bytes of its most recent record.

use vstd::prelude::*;
use vstd::slice::slice_subrange;
use vstd::utf8::{decode_utf8, encode_utf8, valid_utf8};

use crate::codec::{
    lemma_header_round_trip, lemma_record_round_trip, record_fits, spec_header_of,
    spec_record_bytes, spec_record_parse, Header, KeyValue, HEADER_SIZE,
};
use crate::errors::Error;
use crate::keydir::{
    entries_ok, entry_ok, lemma_scan_append, lemma_scan_entries_ok, spec_scan, KeyDir, KeyDirEntry,
};

verus! {

/// Relies on `std::time::SystemTime::now`: the wall-clock time, read as
/// whole seconds since the Unix epoch. Panics if the clock reads before
/// the epoch or past what an unsigned 32-bit count of seconds can hold.
#[verifier::external_body]
pub fn now_timestamp() -> u32 {
    let time = std::time::SystemTime::now()
        .duration_since(std::time::UNIX_EPOCH)
        .unwrap();
    time.as_secs().try_into().unwrap()
}

/// Appends every byte of `src` to `dst`.
fn push_bytes(dst: &mut Vec<u8>, src: &[u8])
    ensures
        final(dst)@ == old(dst)@ + src@,
{
    let n = src.len();
    let mut i: usize = 0;
    proof {
        assert(dst@ =~= old(dst)@ + src@.subrange(0, 0));
    }
    while i < n
        invariant
            i <= n,
            n == src@.len(),
            dst@ == old(dst)@ + src@.subrange(0, i as int),
        decreases n - i,
    {
        dst.push(*vstd::slice::slice_index_get(src, i));
        i += 1;
        proof {
            assert(dst@ =~= old(dst)@ + src@.subrange(0, i as int));
        }
    }
    proof {
        assert(src@.subrange(0, n as int) =~= src@);
    }
}

/// The raw value bytes of the record that `e` locates in `log`.
pub open spec fn record_value_bytes(log: Seq<u8>, e: KeyDirEntry) -> Seq<u8> {
    let off = e.offset as int;
    let h = spec_header_of(log.subrange(off, off + HEADER_SIZE));
    log.subrange(off + HEADER_SIZE + h.key_size as int, off + e.size as int)
}

/// The storage engine over an in-memory copy of the log bytes.
pub struct Store {
    /// The log: every record ever appended, in append order.
    pub log: Vec<u8>,
    /// The index, rebuilt from the log when the store is opened.
    pub keydir: KeyDir,
    /// The byte offset at which the next record will land.
    pub offset: usize,
}

impl Store {
    /// The index is exactly what scanning the log yields, and the
    /// next-write offset sits at the end of the log.
    pub open spec fn wf(self) -> bool {
        &&& self.keydir.distinct_keys()
        &&& spec_scan(self.log@, 0, Map::empty()) == Some(self.keydir@)
        &&& self.offset == self.log@.len()
    }
}

impl View for Store {
    type V = Map<Seq<char>, Seq<u8>>;

    /// Each indexed key, mapped to the raw value bytes of its most recent
    /// record in the log.
    open spec fn view(&self) -> Map<Seq<char>, Seq<u8>> {
        Map::new(
            |k: Seq<char>| self.keydir@.contains_key(k),
            |k: Seq<char>| record_value_bytes(self.log@, self.keydir@[k]),
        )
    }
}

/// A store over an empty log holds nothing: every lookup in it answers
/// "no value".
pub proof fn lemma_fresh_store_empty(s: Store)
    requires
        s.wf(),
        s.log@ == Seq::<u8>::empty(),
    ensures
        s@ == Map::<Seq<char>, Seq<u8>>::empty(),
{
    assert(spec_scan(s.log@, 0, Map::empty()) == Some(Map::<Seq<char>, KeyDirEntry>::empty()));
    assert(s@ =~= Map::<Seq<char>, Seq<u8>>::empty());
}

/// Two well-formed stores over the same log bytes hold the same data:
/// reopening a store from the log it wrote yields the same view.
pub proof fn lemma_reload_consistency(a: Store, b: Store)
    requires
        a.wf(),
        b.wf(),
        a.log@ == b.log@,
    ensures
        a@ == b@,
{
    assert(a.keydir@ == b.keydir@);
    assert(a@ =~= b@);
}

impl Store {
    /// Opens a store over the given log bytes, rebuilding the index by one
    /// pass over them; fails exactly when the bytes do not form a whole
    /// number of records with UTF-8 keys: with the end-of-file I/O error
    /// when the log ends mid-record, with a decode error when a key is not
    /// UTF-8.
    pub fn open(log: Vec<u8>) -> (r: Result<Store, Error>)
        ensures
            r matches Ok(s) ==> s.wf() && s.log@ == log@,
            r is Err ==> spec_scan(log@, 0, Map::empty()) is None,
            r matches Err(e) ==> (if crate::keydir::spec_scan_truncated(log@, 0) {
                e matches Error::IoError(_)
            } else {
                e matches Error::DecodeError(_)
            }),
    {
        let keydir = match KeyDir::load(log.as_slice()) {
            Ok(kd) => kd,
            Err(e) => {
                return Err(e);
            },
        };
        let offset = log.len();
        Ok(Store { log, keydir, offset })
    }

    /// Looks a key up: "no value" for a key the index does not hold;
    /// otherwise the value read back from the key's record in the log,
    /// a decode error if those value bytes are not valid UTF-8.
    pub fn get(&self, key: &str) -> (r: Result<Option<String>, Error>)
        requires
            self.wf(),
        ensures
            !self@.contains_key(key@) ==> (r matches Ok(o) && o is None),
            self@.contains_key(key@) && valid_utf8(self@[key@]) ==> (r matches Ok(o)
                && o matches Some(v) && v@ == decode_utf8(self@[key@])),
            self@.contains_key(key@) && !valid_utf8(self@[key@]) ==> (r matches Err(e)
                && e matches Error::DecodeError(_)),
    {
        let key_owned = key.to_owned();
        let entry = match self.keydir.get(&key_owned) {
            Some(e) => *e,
            None => {
                return Ok(None);
            },
        };
        proof {
            vstd::std_specs::vec::axiom_spec_len(&self.log);
            assert(entries_ok(self.log@, Map::<Seq<char>, KeyDirEntry>::empty()));
            lemma_scan_entries_ok(self.log@, 0, Map::empty());
            assert(entry_ok(self.log@, key@, entry));
        }
        let off = entry.offset as usize;
        let size = entry.size as usize;
        let buf = slice_subrange(self.log.as_slice(), off, off + size);
        let ghost logv = self.log@;
        let ghost offg = entry.offset as int;
        let ghost h = spec_header_of(logv.subrange(offg, offg + HEADER_SIZE));
        let ghost ks = h.key_size as int;
        let ghost vs = h.value_size as int;
        proof {
            assert(buf@.subrange(0, HEADER_SIZE as int) =~= logv.subrange(
                offg,
                offg + HEADER_SIZE,
            ));
            assert(buf@.subrange(HEADER_SIZE as int, HEADER_SIZE + ks) =~= logv.subrange(
                offg + HEADER_SIZE,
                offg + HEADER_SIZE + ks,
            ));
            assert(buf@.subrange(HEADER_SIZE + ks, HEADER_SIZE + ks + vs) =~= logv.subrange(
                offg + HEADER_SIZE + ks,
                offg + entry.size as int,
            ));
            assert(self@[key@] == record_value_bytes(logv, entry));
        }
        match KeyValue::decode(buf) {
            Ok(kv) => Ok(Some(kv.value)),
            Err(e) => Err(e),
        }
    }

    /// Appends a record holding the key and value, stamped with the given
    /// timestamp, then points the index at it; hands back the appended
    /// bytes — exactly `spec_record_bytes` of the arguments — so a caller
    /// persisting the log durably can write and sync those same bytes
    /// before applying this in-memory step. Fails, leaving the store
    /// unchanged, exactly when the key's or the value's byte length does
    /// not fit an unsigned 32-bit size field.
    pub fn set_at(&mut self, timestamp: u32, key: &str, value: &str) -> (r: Result<Vec<u8>, Error>)
        requires
            old(self).wf(),
        ensures
            final(self).wf(),
            record_fits(key@, value@) ==> (r matches Ok(b) && final(self)@ == old(self)@.insert(
                key@,
                encode_utf8(value@),
            ) && final(self).log@ == old(self).log@ + b@ && b@ == spec_record_bytes(
                timestamp,
                key@,
                value@,
            )),
            encode_utf8(key@).len() > u32::MAX ==> (r matches Err(e) && e is KeyTooLong
                && *final(self) == *old(self)),
            encode_utf8(key@).len() <= u32::MAX && encode_utf8(value@).len() > u32::MAX ==> (
            r matches Err(e) && e is ValueTooLong && *final(self) == *old(self)),
    {
        let kv = match KeyValue::new(timestamp, key.to_owned(), value.to_owned()) {
            Ok(kv) => kv,
            Err(e) => {
                return Err(e);
            },
        };
        let bytes = kv.encode();
        let ghost old_log = self.log@;
        let ghost old_kd = self.keydir@;
        let entry = KeyDirEntry {
            timestamp,
            size: bytes.len() as u64,
            offset: self.offset as u64,
        };
        push_bytes(&mut self.log, bytes.as_slice());
        self.keydir.insert(key.to_owned(), entry);
        proof {
            vstd::std_specs::vec::axiom_spec_len(&self.log);
        }
        self.offset = self.offset + bytes.len();
        proof {
            let t = timestamp;
            let b = bytes@;
            lemma_record_round_trip(t, key@, value@);
            lemma_scan_append(old_log, b, 0, Map::empty());
            assert(spec_scan(self.log@, 0, Map::empty()) == Some(
                old_kd.insert(key@, entry),
            ));
            assert(entries_ok(old_log, Map::<Seq<char>, KeyDirEntry>::empty()));
            lemma_scan_entries_ok(old_log, 0, Map::empty());
            let hdr = Header {
                timestamp: t,
                key_size: encode_utf8(key@).len() as u32,
                value_size: encode_utf8(value@).len() as u32,
            };
            lemma_header_round_trip(hdr);
            let off0 = old_log.len() as int;
            assert(self.log@.subrange(off0, off0 + HEADER_SIZE) =~= b.subrange(
                0,
                HEADER_SIZE as int,
            ));
            assert(b.subrange(0, HEADER_SIZE as int) =~= crate::codec::spec_header_bytes(hdr));
            assert(record_value_bytes(self.log@, entry) =~= encode_utf8(value@));
            assert forall|k: Seq<char>|
                #[trigger] old_kd.contains_key(k) && k != key@ implies record_value_bytes(
                self.log@,
                old_kd[k],
            ) == record_value_bytes(old_log, old_kd[k]) by {
                let e = old_kd[k];
                assert(entry_ok(old_log, k, e));
                let eo = e.offset as int;
                assert(self.log@.subrange(eo, eo + HEADER_SIZE) =~= old_log.subrange(
                    eo,
                    eo + HEADER_SIZE,
                ));
                let eh = spec_header_of(old_log.subrange(eo, eo + HEADER_SIZE));
                assert(self.log@.subrange(eo + HEADER_SIZE + eh.key_size as int, eo + e.size as int)
                    =~= old_log.subrange(eo + HEADER_SIZE + eh.key_size as int, eo + e.size as int));
            }
            assert(self@ =~= old(self)@.insert(key@, encode_utf8(value@)));
        }
        Ok(bytes)
    }

    /// Appends a record holding the key and value, stamped with the
    /// current wall-clock seconds, then points the index at it; hands
    /// back the appended bytes so the caller can persist them. Fails,
    /// leaving the store unchanged, exactly when the key's or the value's
    /// byte length does not fit an unsigned 32-bit size field.
    pub fn set(&mut self, key: &str, value: &str) -> (r: Result<Vec<u8>, Error>)
        requires
            old(self).wf(),
        ensures
            final(self).wf(),
            record_fits(key@, value@) ==> (r matches Ok(b) && final(self)@ == old(self)@.insert(
                key@,
                encode_utf8(value@),
            ) && final(self).log@ == old(self).log@ + b@ && (exists|t: u32|
                b@ == spec_record_bytes(t, key@, value@))),
            encode_utf8(key@).len() > u32::MAX ==> (r matches Err(e) && e is KeyTooLong
                && *final(self) == *old(self)),
            encode_utf8(key@).len() <= u32::MAX && encode_utf8(value@).len() > u32::MAX ==> (
            r matches Err(e) && e is ValueTooLong && *final(self) == *old(self)),
    {
        let timestamp = now_timestamp();
        self.set_at(timestamp, key, value)
    }
}

} // verus!
