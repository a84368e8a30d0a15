//! The record codec: a fixed 12-byte header (timestamp, key size, value
//! size, each little-endian unsigned 32-bit) followed by the raw key bytes
//! and the raw value bytes, key and value being UTF-8 text.
//!
//! `spec_header_bytes` / `spec_header_of` and `spec_record_bytes` /
//! `spec_record_parse` are the mathematical statements of the wire format;
//! the executable `encode` and `decode` functions are proved against them,
//! and the round-trip lemmas show that the two directions invert each other.

use vstd::prelude::*;
use vstd::bytes::{
    lemma_auto_spec_u32_to_from_le_bytes, spec_u32_from_le_bytes, spec_u32_to_le_bytes,
    u32_from_le_bytes, u32_to_le_bytes,
};
use vstd::slice::{slice_subrange, slice_to_vec};
use vstd::utf8::{decode_utf8, encode_utf8, valid_utf8};

use crate::errors::{size_msg, Error};

verus! {

/// Number of bytes a header occupies on the wire: three unsigned 32-bit fields.
pub const HEADER_SIZE: usize = 12;

/// The fixed-size record header. Always exactly 12 bytes on the wire,
/// whatever the payload sizes say.
#[derive(Debug, Clone, Copy, PartialEq, Eq, Structural)]
pub struct Header {
    /// Wall-clock seconds at which the record was written.
    pub timestamp: u32,
    /// Byte length of the key that follows the header.
    pub key_size: u32,
    /// Byte length of the value that follows the key.
    pub value_size: u32,
}

/// The 12 bytes that encode a header: each field little-endian, in
/// timestamp, key size, value size order.
pub open spec fn spec_header_bytes(h: Header) -> Seq<u8> {
    spec_u32_to_le_bytes(h.timestamp) + spec_u32_to_le_bytes(h.key_size)
        + spec_u32_to_le_bytes(h.value_size)
}

/// The header read back from a 12-byte buffer.
pub open spec fn spec_header_of(b: Seq<u8>) -> Header
    recommends
        b.len() == HEADER_SIZE,
{
    Header {
        timestamp: spec_u32_from_le_bytes(b.subrange(0, 4)),
        key_size: spec_u32_from_le_bytes(b.subrange(4, 8)),
        value_size: spec_u32_from_le_bytes(b.subrange(8, 12)),
    }
}

/// Encoding a header and reading it back yields the same header.
pub proof fn lemma_header_round_trip(h: Header)
    ensures
        spec_header_bytes(h).len() == HEADER_SIZE,
        spec_header_of(spec_header_bytes(h)) == h,
{
    lemma_auto_spec_u32_to_from_le_bytes();
    let b = spec_header_bytes(h);
    assert(b.subrange(0, 4) =~= spec_u32_to_le_bytes(h.timestamp));
    assert(b.subrange(4, 8) =~= spec_u32_to_le_bytes(h.key_size));
    assert(b.subrange(8, 12) =~= spec_u32_to_le_bytes(h.value_size));
}

impl Header {
    /// Emits the 12 wire bytes of this header.
    pub fn encode(&self) -> (r: Vec<u8>)
        ensures
            r@ == spec_header_bytes(*self),
            r@.len() == HEADER_SIZE,
    {
        let mut buf = u32_to_le_bytes(self.timestamp);
        let mut ks = u32_to_le_bytes(self.key_size);
        let mut vs = u32_to_le_bytes(self.value_size);
        buf.append(&mut ks);
        buf.append(&mut vs);
        proof {
            lemma_auto_spec_u32_to_from_le_bytes();
        }
        buf
    }

    /// Reads a header back from a buffer; any length other than exactly 12
    /// bytes is a decode error.
    pub fn decode(buf: &[u8]) -> (r: Result<Header, Error>)
        ensures
            buf@.len() == HEADER_SIZE ==> (r matches Ok(h) && h == spec_header_of(buf@)),
            buf@.len() != HEADER_SIZE ==> (r matches Err(e) && e matches Error::DecodeError(_)),
    {
        if buf.len() != HEADER_SIZE {
            return Err(Error::DecodeError(size_msg("header", buf.len() as u64, HEADER_SIZE as u64)));
        }
        let timestamp = u32_from_le_bytes(slice_subrange(buf, 0, 4));
        let key_size = u32_from_le_bytes(slice_subrange(buf, 4, 8));
        let value_size = u32_from_le_bytes(slice_subrange(buf, 8, 12));
        Ok(Header { timestamp, key_size, value_size })
    }
}

/// One logical record: a timestamp and a key/value pair of UTF-8 text.
#[derive(Debug)]
pub struct KeyValue {
    /// Wall-clock seconds at which the record was written.
    pub timestamp: u32,
    /// The key, UTF-8 text whose byte length fits in 32 bits.
    pub key: String,
    /// The value, UTF-8 text whose byte length fits in 32 bits.
    pub value: String,
}

impl PartialEq for KeyValue {
    fn eq(&self, other: &KeyValue) -> (r: bool) {
        self.timestamp == other.timestamp && self.key == other.key && self.value == other.value
    }
}

impl vstd::std_specs::cmp::PartialEqSpecImpl for KeyValue {
    open spec fn obeys_eq_spec() -> bool {
        true
    }

    open spec fn eq_spec(&self, other: &KeyValue) -> bool {
        self.timestamp == other.timestamp && self.key@ == other.key@
            && self.value@ == other.value@
    }
}

/// True when the UTF-8 encodings of key and value each fit a 32-bit size field.
pub open spec fn record_fits(k: Seq<char>, v: Seq<char>) -> bool {
    encode_utf8(k).len() <= u32::MAX && encode_utf8(v).len() <= u32::MAX
}

/// The wire bytes of a whole record: header, then key bytes, then value bytes.
pub open spec fn spec_record_bytes(t: u32, k: Seq<char>, v: Seq<char>) -> Seq<u8>
    recommends
        record_fits(k, v),
{
    spec_header_bytes(
        Header {
            timestamp: t,
            key_size: encode_utf8(k).len() as u32,
            value_size: encode_utf8(v).len() as u32,
        },
    ) + encode_utf8(k) + encode_utf8(v)
}

/// Reads a whole record back from a buffer: `None` when the buffer is
/// shorter than a header, when its length differs from what the header
/// announces, or when key or value bytes are not valid UTF-8.
pub open spec fn spec_record_parse(b: Seq<u8>) -> Option<(u32, Seq<char>, Seq<char>)> {
    if b.len() < HEADER_SIZE {
        None
    } else {
        let h = spec_header_of(b.subrange(0, HEADER_SIZE as int));
        let ks = h.key_size as int;
        let vs = h.value_size as int;
        if b.len() != HEADER_SIZE + ks + vs {
            None
        } else {
            let kb = b.subrange(HEADER_SIZE as int, HEADER_SIZE + ks);
            let vb = b.subrange(HEADER_SIZE + ks, HEADER_SIZE + ks + vs);
            if valid_utf8(kb) && valid_utf8(vb) {
                Some((h.timestamp, decode_utf8(kb), decode_utf8(vb)))
            } else {
                None
            }
        }
    }
}

/// Encoding a record and parsing it back yields the same timestamp, key
/// and value, for every key and value whose byte lengths fit 32 bits.
pub proof fn lemma_record_round_trip(t: u32, k: Seq<char>, v: Seq<char>)
    requires
        record_fits(k, v),
    ensures
        spec_record_parse(spec_record_bytes(t, k, v)) == Some((t, k, v)),
{
    broadcast use vstd::utf8::encode_utf8_valid_utf8, vstd::utf8::encode_utf8_decode_utf8;

    let b = spec_record_bytes(t, k, v);
    let h = Header {
        timestamp: t,
        key_size: encode_utf8(k).len() as u32,
        value_size: encode_utf8(v).len() as u32,
    };
    lemma_header_round_trip(h);
    let ks = encode_utf8(k).len() as int;
    let vs = encode_utf8(v).len() as int;
    assert(b.subrange(0, HEADER_SIZE as int) =~= spec_header_bytes(h));
    assert(b.subrange(HEADER_SIZE as int, HEADER_SIZE + ks) =~= encode_utf8(k));
    assert(b.subrange(HEADER_SIZE + ks, HEADER_SIZE + ks + vs) =~= encode_utf8(v));
}

/// Relies on `std::str::from_utf8`: it accepts exactly the byte sequences
/// that vstd's UTF-8 model calls valid, and yields the character sequence
/// that the model decodes them to; `str::to_owned` then copies the text.
/// On rejection, `format!` renders the diagnostic around the underlying
/// error's own message; the message text carries no verified meaning.
#[verifier::external_body]
pub(crate) fn utf8_to_string(b: &[u8]) -> (r: Result<String, String>)
    ensures
        r matches Ok(s) ==> valid_utf8(b@) && s@ == decode_utf8(b@),
        r is Err ==> !valid_utf8(b@),
{
    match std::str::from_utf8(b) {
        Ok(s) => Ok(s.to_owned()),
        Err(e) => Err(format!("unable to decode utf-8: {}", e)),
    }
}

impl KeyValue {
    /// Builds a record after checking that the key's and the value's byte
    /// lengths each fit an unsigned 32-bit size field; the key is rejected
    /// first.
    pub fn new(timestamp: u32, key: String, value: String) -> (r: Result<KeyValue, Error>)
        ensures
            encode_utf8(key@).len() > u32::MAX ==> (r matches Err(e) && e is KeyTooLong),
            encode_utf8(key@).len() <= u32::MAX && encode_utf8(value@).len() > u32::MAX
                ==> (r matches Err(e) && e is ValueTooLong),
            record_fits(key@, value@) ==> (r matches Ok(kv) && kv.timestamp == timestamp
                && kv.key == key && kv.value == value),
    {
        if key.as_str().as_bytes().len() > u32::MAX as usize {
            return Err(Error::KeyTooLong);
        }
        if value.as_str().as_bytes().len() > u32::MAX as usize {
            return Err(Error::ValueTooLong);
        }
        Ok(KeyValue { timestamp, key, value })
    }

    /// Emits the wire bytes of this record: header, key bytes, value bytes.
    pub fn encode(&self) -> (r: Vec<u8>)
        requires
            record_fits(self.key@, self.value@),
        ensures
            r@ == spec_record_bytes(self.timestamp, self.key@, self.value@),
            r@.len() == HEADER_SIZE + encode_utf8(self.key@).len() + encode_utf8(self.value@).len(),
    {
        let kb = self.key.as_str().as_bytes();
        let vb = self.value.as_str().as_bytes();
        let header = Header {
            timestamp: self.timestamp,
            key_size: kb.len() as u32,
            value_size: vb.len() as u32,
        };
        let mut buf = header.encode();
        let mut kvec = slice_to_vec(kb);
        let mut vvec = slice_to_vec(vb);
        buf.append(&mut kvec);
        buf.append(&mut vvec);
        proof {
            assert(buf@ =~= spec_record_bytes(self.timestamp, self.key@, self.value@));
        }
        buf
    }

    /// Reads a record back from a buffer, exactly when `spec_record_parse`
    /// accepts the buffer; every rejected buffer gives a decode error.
    pub fn decode(buf: &[u8]) -> (r: Result<KeyValue, Error>)
        ensures
            r matches Ok(kv) ==> spec_record_parse(buf@) == Some(
                (kv.timestamp, kv.key@, kv.value@),
            ),
            r is Err ==> spec_record_parse(buf@) is None,
            r matches Err(e) ==> e matches Error::DecodeError(_),
    {
        let n = buf.len();
        if n < HEADER_SIZE {
            return Err(Error::DecodeError("not enough data to decode header".to_owned()));
        }
        let header = match Header::decode(slice_subrange(buf, 0, HEADER_SIZE)) {
            Ok(h) => h,
            Err(e) => {
                return Err(e);
            },
        };
        let total: u64 = HEADER_SIZE as u64 + header.key_size as u64 + header.value_size as u64;
        if n as u64 != total {
            return Err(Error::DecodeError(size_msg("key-value", n as u64, total)));
        }
        let ks = header.key_size as usize;
        let key_b = slice_subrange(buf, HEADER_SIZE, HEADER_SIZE + ks);
        let value_b = slice_subrange(buf, HEADER_SIZE + ks, n);
        let key = match utf8_to_string(key_b) {
            Ok(s) => s,
            Err(msg) => {
                return Err(Error::DecodeError(msg));
            },
        };
        let value = match utf8_to_string(value_b) {
            Ok(s) => s,
            Err(msg) => {
                return Err(Error::DecodeError(msg));
            },
        };
        Ok(KeyValue { timestamp: header.timestamp, key, value })
    }
}

} // verus!
