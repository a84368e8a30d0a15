//! The in-memory index: a mapping from each key to the location of its most
//! recent record in the log.
//!
//! `spec_scan` is the mathematical statement of the index-rebuild pass: a
//! fold over the log bytes that decodes one record header and key at a
//! time, skips the value bytes, and lets a later record for the same key
//! overwrite the earlier entry. `KeyDir::load` is proved to compute exactly
//! that fold; the lemmas below state that the entries a scan produces all
//! point at well-formed records inside the log, and that appending one
//! well-formed record to the log turns the scan's result into a single
//! map insertion — the heart of last-write-wins.

use vstd::prelude::*;
use vstd::slice::slice_subrange;
use vstd::utf8::{decode_utf8, valid_utf8};

use crate::codec::{spec_header_of, utf8_to_string, Header, HEADER_SIZE};
use crate::errors::Error;

verus! {

/// Per-key metadata: which bytes of the log hold the key's current record.
#[derive(Debug, Clone, Copy, PartialEq, Eq, Structural)]
pub struct KeyDirEntry {
    /// Timestamp of the record that produced this entry.
    pub timestamp: u32,
    /// Total on-disk length of the record in bytes, header included.
    pub size: u64,
    /// Absolute byte offset in the log where the record's header begins.
    pub offset: u64,
}

/// The result of scanning `log` from byte `off` with the entries of `acc`
/// already collected: `None` when the remaining bytes do not form a whole
/// number of records with UTF-8 keys, otherwise the final key-to-entry map.
pub open spec fn spec_scan(
    log: Seq<u8>,
    off: int,
    acc: Map<Seq<char>, KeyDirEntry>,
) -> Option<Map<Seq<char>, KeyDirEntry>>
    decreases log.len() - off,
{
    if off == log.len() {
        Some(acc)
    } else if off < 0 || off > log.len() || log.len() - off < HEADER_SIZE {
        None
    } else {
        let h = spec_header_of(log.subrange(off, off + HEADER_SIZE));
        let ks = h.key_size as int;
        let vs = h.value_size as int;
        if off + HEADER_SIZE + ks + vs > log.len() {
            None
        } else {
            let kb = log.subrange(off + HEADER_SIZE, off + HEADER_SIZE + ks);
            if !valid_utf8(kb) {
                None
            } else {
                spec_scan(
                    log,
                    off + HEADER_SIZE + ks + vs,
                    acc.insert(
                        decode_utf8(kb),
                        KeyDirEntry {
                            timestamp: h.timestamp,
                            size: (HEADER_SIZE + ks + vs) as u64,
                            offset: off as u64,
                        },
                    ),
                )
            }
        }
    }
}

/// Distinguishes how a scan of `log` from byte `off` fails: true when the
/// log ends in the middle of a record (fewer than a header's worth of
/// bytes where a record should start, or a record reaching past the end),
/// which a streaming reader would hit as an unexpected end of file; false
/// when the scan succeeds or stops at key bytes that are not UTF-8.
pub open spec fn spec_scan_truncated(log: Seq<u8>, off: int) -> bool
    decreases log.len() - off,
{
    if off == log.len() {
        false
    } else if off < 0 || off > log.len() || log.len() - off < HEADER_SIZE {
        true
    } else {
        let h = spec_header_of(log.subrange(off, off + HEADER_SIZE));
        let ks = h.key_size as int;
        let vs = h.value_size as int;
        if off + HEADER_SIZE + ks + vs > log.len() {
            true
        } else {
            let kb = log.subrange(off + HEADER_SIZE, off + HEADER_SIZE + ks);
            if !valid_utf8(kb) {
                false
            } else {
                spec_scan_truncated(log, off + HEADER_SIZE + ks + vs)
            }
        }
    }
}

/// The record that `e` locates lies whole inside `log`, announces sizes
/// that match `e`, and its key bytes are UTF-8 text reading `k`.
pub open spec fn entry_ok(log: Seq<u8>, k: Seq<char>, e: KeyDirEntry) -> bool {
    let off = e.offset as int;
    let size = e.size as int;
    &&& off + size <= log.len()
    &&& size >= HEADER_SIZE
    &&& {
        let h = spec_header_of(log.subrange(off, off + HEADER_SIZE));
        let ks = h.key_size as int;
        let vs = h.value_size as int;
        &&& size == HEADER_SIZE + ks + vs
        &&& h.timestamp == e.timestamp
        &&& valid_utf8(log.subrange(off + HEADER_SIZE, off + HEADER_SIZE + ks))
        &&& decode_utf8(log.subrange(off + HEADER_SIZE, off + HEADER_SIZE + ks)) == k
    }
}

/// Every entry of `m` locates a well-formed record for its key.
pub open spec fn entries_ok(log: Seq<u8>, m: Map<Seq<char>, KeyDirEntry>) -> bool {
    forall|k: Seq<char>| #[trigger] m.contains_key(k) ==> entry_ok(log, k, m[k])
}

/// A scan that succeeds only ever hands out entries that point at
/// well-formed records inside the log.
pub proof fn lemma_scan_entries_ok(log: Seq<u8>, off: int, acc: Map<Seq<char>, KeyDirEntry>)
    requires
        log.len() <= u64::MAX,
        entries_ok(log, acc),
        spec_scan(log, off, acc) is Some,
    ensures
        spec_scan(log, off, acc) matches Some(m) ==> entries_ok(log, m),
    decreases log.len() - off,
{
    if off == log.len() {
    } else if off < 0 || off > log.len() || log.len() - off < HEADER_SIZE {
        assert(false);
    } else {
        let h = spec_header_of(log.subrange(off, off + HEADER_SIZE));
        let ks = h.key_size as int;
        let vs = h.value_size as int;
        if off + HEADER_SIZE + ks + vs > log.len() {
            assert(false);
        } else {
            let kb = log.subrange(off + HEADER_SIZE, off + HEADER_SIZE + ks);
            if !valid_utf8(kb) {
                assert(false);
            } else {
                let k0 = decode_utf8(kb);
                let e0 = KeyDirEntry {
                    timestamp: h.timestamp,
                    size: (HEADER_SIZE + ks + vs) as u64,
                    offset: off as u64,
                };
                assert(entry_ok(log, k0, e0));
                let acc2 = acc.insert(k0, e0);
                assert forall|k: Seq<char>| #[trigger] acc2.contains_key(k) implies entry_ok(
                    log,
                    k,
                    acc2[k],
                ) by {
                    if k != k0 {
                        assert(acc.contains_key(k));
                    }
                }
                lemma_scan_entries_ok(log, off + HEADER_SIZE + ks + vs, acc2);
            }
        }
    }
}

/// Appending one well-formed record to the log extends a successful scan
/// by exactly one map insertion: the record's key now points at the new
/// record, and every other entry is untouched.
pub proof fn lemma_scan_append(log: Seq<u8>, rec: Seq<u8>, off: int, acc: Map<Seq<char>, KeyDirEntry>)
    requires
        0 <= off <= log.len(),
        log.len() + rec.len() <= u64::MAX,
        spec_scan(log, off, acc) is Some,
        crate::codec::spec_record_parse(rec) is Some,
    ensures
        spec_scan(log + rec, off, acc) == Some(
            spec_scan(log, off, acc)->Some_0.insert(
                crate::codec::spec_record_parse(rec)->Some_0.1,
                KeyDirEntry {
                    timestamp: crate::codec::spec_record_parse(rec)->Some_0.0,
                    size: rec.len() as u64,
                    offset: log.len() as u64,
                },
            ),
        ),
    decreases log.len() - off,
{
    let total = log + rec;
    let p = crate::codec::spec_record_parse(rec)->Some_0;
    if off == log.len() {
        let h = spec_header_of(rec.subrange(0, HEADER_SIZE as int));
        let ks = h.key_size as int;
        let vs = h.value_size as int;
        assert(total.subrange(off, off + HEADER_SIZE) =~= rec.subrange(0, HEADER_SIZE as int));
        assert(total.subrange(off + HEADER_SIZE, off + HEADER_SIZE + ks) =~= rec.subrange(
            HEADER_SIZE as int,
            HEADER_SIZE + ks,
        ));
        let e0 = KeyDirEntry {
            timestamp: h.timestamp,
            size: (HEADER_SIZE + ks + vs) as u64,
            offset: off as u64,
        };
        assert(spec_scan(total, off, acc) == spec_scan(total, off + HEADER_SIZE + ks + vs, acc.insert(p.1, e0)));
        assert(off + HEADER_SIZE + ks + vs == total.len());
    } else {
        let h = spec_header_of(log.subrange(off, off + HEADER_SIZE));
        let ks = h.key_size as int;
        let vs = h.value_size as int;
        assert(total.subrange(off, off + HEADER_SIZE) =~= log.subrange(off, off + HEADER_SIZE));
        assert(total.subrange(off + HEADER_SIZE, off + HEADER_SIZE + ks) =~= log.subrange(
            off + HEADER_SIZE,
            off + HEADER_SIZE + ks,
        ));
        let kb = log.subrange(off + HEADER_SIZE, off + HEADER_SIZE + ks);
        let acc2 = acc.insert(
            decode_utf8(kb),
            KeyDirEntry {
                timestamp: h.timestamp,
                size: (HEADER_SIZE + ks + vs) as u64,
                offset: off as u64,
            },
        );
        lemma_scan_append(log, rec, off + HEADER_SIZE + ks + vs, acc2);
    }
}

/// The in-memory index. The entries are kept as a flat list of pairs whose
/// key texts are pairwise distinct; its view is the map they spell.
pub struct KeyDir {
    /// The key-to-entry pairs, no two keys reading the same text.
    pub entries: Vec<(String, KeyDirEntry)>,
}

impl KeyDir {
    /// The text of the key stored at position `i`.
    pub open spec fn key_seq(self, i: int) -> Seq<char> {
        self.entries@[i].0@
    }

    /// No two stored keys read the same text.
    pub open spec fn distinct_keys(self) -> bool {
        forall|i: int, j: int|
            0 <= i < j < self.entries@.len() ==> self.key_seq(i) != self.key_seq(j)
    }

    /// Some stored key reads `k`.
    pub open spec fn contains(self, k: Seq<char>) -> bool {
        exists|i: int| 0 <= i < self.entries@.len() && self.key_seq(i) == k
    }

    /// The position whose key reads `k`.
    pub open spec fn index_of(self, k: Seq<char>) -> int {
        choose|i: int| 0 <= i < self.entries@.len() && self.key_seq(i) == k
    }

    /// With distinct keys, the position of a key is the one that holds it.
    pub proof fn lemma_index_of(self, k: Seq<char>, i: int)
        requires
            self.distinct_keys(),
            0 <= i < self.entries@.len(),
            self.key_seq(i) == k,
        ensures
            self.contains(k),
            self.index_of(k) == i,
    {
        assert(self.contains(k));
        let j = self.index_of(k);
        if j != i {
            assert(false);
        }
    }
}

impl View for KeyDir {
    type V = Map<Seq<char>, KeyDirEntry>;

    open spec fn view(&self) -> Map<Seq<char>, KeyDirEntry> {
        Map::new(|k: Seq<char>| self.contains(k), |k: Seq<char>| self.entries@[self.index_of(k)].1)
    }
}

impl KeyDir {
    /// An empty index.
    pub fn new() -> (r: KeyDir)
        ensures
            r@ == Map::<Seq<char>, KeyDirEntry>::empty(),
            r.distinct_keys(),
    {
        let r = KeyDir { entries: Vec::new() };
        proof {
            assert(r@ =~= Map::<Seq<char>, KeyDirEntry>::empty());
        }
        r
    }

    /// Looks the key up by its text.
    pub fn get(&self, key: &String) -> (r: Option<&KeyDirEntry>)
        requires
            self.distinct_keys(),
        ensures
            r matches Some(e) ==> self@.contains_key(key@) && *e == self@[key@],
            r is None ==> !self@.contains_key(key@),
    {
        let n = self.entries.len();
        let mut i: usize = 0;
        while i < n
            invariant
                i <= n,
                n == self.entries@.len(),
                self.distinct_keys(),
                forall|j: int| 0 <= j < i ==> self.key_seq(j) != key@,
            decreases n - i,
        {
            if self.entries[i].0 == *key {
                proof {
                    self.lemma_index_of(key@, i as int);
                }
                return Some(&self.entries[i].1);
            }
            i += 1;
        }
        None
    }

    /// Inserts or overwrites the entry for `key`.
    pub fn insert(&mut self, key: String, entry: KeyDirEntry)
        requires
            old(self).distinct_keys(),
        ensures
            final(self).distinct_keys(),
            final(self)@ == old(self)@.insert(key@, entry),
    {
        let n = self.entries.len();
        let mut i: usize = 0;
        while i < n
            invariant
                i <= n,
                n == self.entries@.len(),
                *self == *old(self),
                self.distinct_keys(),
                forall|j: int| 0 <= j < i ==> self.key_seq(j) != key@,
            decreases n - i,
        {
            if self.entries[i].0 == *(&key) {
                proof {
                    assert(old(self).key_seq(i as int) == key@);
                }
                self.entries[i] = (key, entry);
                proof {
                    let m2 = old(self)@.insert(key@, entry);
                    assert forall|j: int| 0 <= j < self.entries@.len() implies #[trigger] self
                        .key_seq(j) == old(self).key_seq(j) by {}
                    assert forall|a: int, b: int|
                        0 <= a < b < self.entries@.len() implies self.key_seq(a)
                        != self.key_seq(b) by {
                        assert(old(self).key_seq(a) != old(self).key_seq(b));
                    }
                    assert forall|k: Seq<char>| #[trigger] self@.contains_key(k) implies m2
                        .contains_key(k) && self@[k] == m2[k] by {
                        assert(self.contains(k));
                        let j = self.index_of(k);
                        assert(0 <= j < self.entries@.len() && self.key_seq(j) == k);
                        if k == key@ {
                            self.lemma_index_of(k, i as int);
                        } else {
                            assert(old(self).key_seq(j) == k);
                            assert(j != i as int);
                            old(self).lemma_index_of(k, j);
                            self.lemma_index_of(k, j);
                            assert(old(self)@.contains_key(k));
                        }
                    }
                    assert forall|k: Seq<char>| #[trigger] m2.contains_key(k) implies self@
                        .contains_key(k) by {
                        if k == key@ {
                            self.lemma_index_of(k, i as int);
                        } else {
                            assert(old(self)@.contains_key(k));
                            assert(old(self).contains(k));
                            let j = old(self).index_of(k);
                            assert(old(self).key_seq(j) == k);
                            assert(self.key_seq(j) == k);
                        }
                    }
                    assert(self@ =~= m2);
                }
                return ;
            }
            i += 1;
        }
        self.entries.push((key, entry));
        proof {
            let m2 = old(self)@.insert(key@, entry);
            let m = self.entries@.len() - 1;
            assert(self.key_seq(m) == key@);
            assert forall|j: int| 0 <= j < m implies #[trigger] self.key_seq(j) == old(self)
                .key_seq(j) by {}
            assert forall|a: int, b: int|
                0 <= a < b < self.entries@.len() implies self.key_seq(a) != self.key_seq(b) by {
                if b < m {
                    assert(old(self).key_seq(a) != old(self).key_seq(b));
                } else {
                    assert(old(self).key_seq(a) != key@);
                }
            }
            assert forall|k: Seq<char>| #[trigger] self@.contains_key(k) implies m2.contains_key(
                k,
            ) && self@[k] == m2[k] by {
                assert(self.contains(k));
                let j = self.index_of(k);
                assert(0 <= j < self.entries@.len() && self.key_seq(j) == k);
                if k == key@ {
                    self.lemma_index_of(k, m);
                } else {
                    assert(j != m);
                    assert(old(self).key_seq(j) == k);
                    old(self).lemma_index_of(k, j);
                    self.lemma_index_of(k, j);
                    assert(old(self)@.contains_key(k));
                }
            }
            assert forall|k: Seq<char>| #[trigger] m2.contains_key(k) implies self@.contains_key(
                k,
            ) by {
                if k == key@ {
                    self.lemma_index_of(k, m);
                } else {
                    assert(old(self)@.contains_key(k));
                    assert(old(self).contains(k));
                    let j = old(self).index_of(k);
                    assert(old(self).key_seq(j) == k);
                    assert(self.key_seq(j) == k);
                }
            }
            assert(self@ =~= m2);
        }
    }

    /// Builds the index by one forward pass over the whole log, decoding a
    /// header and a key at a time and skipping over each record's value
    /// bytes; succeeds exactly when `spec_scan` accepts the log. A log that
    /// ends in the middle of a record fails with the end-of-file I/O error;
    /// key bytes that are not UTF-8 fail with a decode error.
    pub fn load(log: &[u8]) -> (r: Result<KeyDir, Error>)
        ensures
            r matches Ok(kd) ==> spec_scan(log@, 0, Map::empty()) == Some(kd@)
                && kd.distinct_keys(),
            r is Err ==> spec_scan(log@, 0, Map::empty()) is None,
            r matches Err(e) ==> (if spec_scan_truncated(log@, 0) {
                e matches Error::IoError(_)
            } else {
                e matches Error::DecodeError(_)
            }),
    {
        let n = log.len();
        let mut kd = KeyDir::new();
        let mut off: usize = 0;
        while off < n
            invariant
                off <= n,
                n == log@.len(),
                kd.distinct_keys(),
                spec_scan(log@, 0, Map::empty()) == spec_scan(log@, off as int, kd@),
                spec_scan_truncated(log@, 0) == spec_scan_truncated(log@, off as int),
            decreases n - off,
        {
            if n - off < HEADER_SIZE {
                return Err(Error::IoError(crate::errors::unexpected_eof(
                    "unexpected end of log inside a record header",
                )));
            }
            let header = match Header::decode(slice_subrange(log, off, off + HEADER_SIZE)) {
                Ok(h) => h,
                Err(e) => {
                    return Err(e);
                },
            };
            let ks = header.key_size as usize;
            let vs = header.value_size as usize;
            if ks > n - off - HEADER_SIZE || vs > n - off - HEADER_SIZE - ks {
                return Err(Error::IoError(crate::errors::unexpected_eof(
                    "unexpected end of log inside a record",
                )));
            }
            let kb = slice_subrange(log, off + HEADER_SIZE, off + HEADER_SIZE + ks);
            let key = match utf8_to_string(kb) {
                Ok(s) => s,
                Err(msg) => {
                    return Err(Error::DecodeError(msg));
                },
            };
            let entry = KeyDirEntry {
                timestamp: header.timestamp,
                size: HEADER_SIZE as u64 + ks as u64 + vs as u64,
                offset: off as u64,
            };
            kd.insert(key, entry);
            off = off + HEADER_SIZE + ks + vs;
        }
        Ok(kd)
    }
}

} // verus!
