//! The record codec: the fixed-layout binary form of one key/value
//! pair together with the sequence and operation fields the log
//! envelope injects.
//!
//! Layout, all integers big-endian:
//!
//! ```text
//! 0       1         5       6            8              12    16            N
//! | magic | u32 seq | u8 op | u16 keylen | u32 valuelen | pad | key | value |
//!   ---------------------------------------------------------   ---   -----
//!                  16 bytes header                       keylen bytes  valuelen bytes
//! ```
//!
//! The fixed-width header avoids framing ambiguity; the four zero pad
//! bytes reserve space for a future checksum or flags field without
//! breaking the layout.

use vstd::prelude::*;

use crate::bytes::{
    be16_of, be16_val, be32_of, be32_val, push_u16_be, push_u32_be, read_u16_be, read_u32_be,
};
use crate::error::WalError;

verus! {

/// The magic byte that opens every header.
pub const MAGIC: u8 = 119u8;

/// The only operation tag currently defined: a SET of a key to a value.
pub const OP_SET: u8 = 1u8;

/// Number of bytes in the fixed codec header.
pub const KV_HEADER_LEN: usize = 16;

/// Largest key the two-byte length field can carry.
pub const MAX_KEY_LEN: usize = 0xFFFF;

/// Largest value the four-byte length field can carry.
pub const MAX_VALUE_LEN: u64 = 0xFFFF_FFFF;

/// The serialized bytes of one codec record: the 16-byte header
/// followed by the key and the value.
pub open spec fn spec_kv_record(seq: u32, op: u8, key: Seq<u8>, value: Seq<u8>) -> Seq<u8> {
    seq![MAGIC] + be32_of(seq) + seq![op] + be16_of(key.len() as u16) + be32_of(
        value.len() as u32,
    ) + be32_of(0u32) + key + value
}

/// What one attempt to read a codec record from `log` at `pos` yields.
pub ghost enum KvParse {
    /// Fewer bytes than the fixed header remain: the clean end-of-log
    /// sentinel, not an error.
    End,
    /// The header is present but invalid, or a declared body is cut
    /// short: corruption, which must abort recovery.
    Bad(WalError),
    /// A full record: its operation tag, key, value, and the position
    /// just past its last byte. The sequence field embedded in the
    /// codec header is framing-only and is not interpreted here; the
    /// envelope reads its own copy.
    Rec(u8, Seq<u8>, Seq<u8>, int),
}

/// The codec's read rules at position `pos` of `log`: a short header
/// is the clean end of the log; after a present header, a wrong magic
/// byte, an unknown operation tag or non-zero padding is corruption;
/// then exactly `keylen` key bytes and `valuelen` value bytes must
/// remain, else the record was truncated.
pub open spec fn spec_parse_kv(log: Seq<u8>, pos: int) -> KvParse
    recommends
        0 <= pos <= log.len(),
{
    if log.len() - pos < KV_HEADER_LEN {
        KvParse::End
    } else if log[pos] != MAGIC {
        KvParse::Bad(WalError::BadMagic)
    } else if log[pos + 5] != OP_SET {
        KvParse::Bad(WalError::BadOp)
    } else if be32_val(log.subrange(pos + 12, pos + 16)) != 0 {
        KvParse::Bad(WalError::BadPad)
    } else {
        let keylen = be16_val(log.subrange(pos + 6, pos + 8)) as int;
        let valuelen = be32_val(log.subrange(pos + 8, pos + 12)) as int;
        if log.len() - (pos + 16) < keylen + valuelen {
            KvParse::Bad(WalError::TruncatedRecord)
        } else {
            KvParse::Rec(
                log[pos + 5],
                log.subrange(pos + 16, pos + 16 + keylen),
                log.subrange(pos + 16 + keylen, pos + 16 + keylen + valuelen),
                pos + 16 + keylen + valuelen,
            )
        }
    }
}

/// A successfully parsed record never ends before `pos + 16` nor past
/// the end of the log.
pub proof fn lemma_parse_kv_bounds(log: Seq<u8>, pos: int)
    requires
        0 <= pos <= log.len(),
    ensures
        spec_parse_kv(log, pos) matches KvParse::Rec(_, key, value, end) ==> pos + 16 + key.len()
            + value.len() == end && pos + 16 <= end <= log.len(),
{
}

/// A read-optimised record: it owns its key and value bytes.
#[derive(Debug)]
pub struct KVRecord {
    pub op: u8,
    pub key: Vec<u8>,
    pub value: Vec<u8>,
}

impl KVRecord {
    /// Reads a single codec record from `log` at `pos`.
    ///
    /// `Ok(None)` is the clean end-of-log sentinel; `Ok(Some(..))`
    /// carries the record and the position just past it; `Err(..)`
    /// reports corruption exactly as `spec_parse_kv` describes it.
    pub fn read_one(log: &[u8], pos: usize) -> (r: Result<Option<(KVRecord, usize)>, WalError>)
        requires
            pos <= log@.len(),
        ensures
            match spec_parse_kv(log@, pos as int) {
                KvParse::End => r matches Ok(o) && o is None,
                KvParse::Bad(e) => r matches Err(e2) && e2 == e,
                KvParse::Rec(op, key, value, end) => r matches Ok(o) && o matches Some((rec, p2))
                    && rec.op == op && rec.key@ == key && rec.value@ == value && p2 == end,
            },
    {
        let len = log.len();
        if len - pos < KV_HEADER_LEN {
            return Ok(None);
        }
        if log[pos] != MAGIC {
            return Err(WalError::BadMagic);
        }
        let op = log[pos + 5];
        if op != OP_SET {
            return Err(WalError::BadOp);
        }
        let pad = read_u32_be(log, pos + 12);
        if pad != 0 {
            return Err(WalError::BadPad);
        }
        let keylen = read_u16_be(log, pos + 6) as usize;
        let valuelen = read_u32_be(log, pos + 8) as usize;
        let body = pos + 16;
        let remaining = len - body;
        if remaining < keylen {
            return Err(WalError::TruncatedRecord);
        }
        if remaining - keylen < valuelen {
            return Err(WalError::TruncatedRecord);
        }
        let key = read_exact(log, body, keylen);
        let value = read_exact(log, body + keylen, valuelen);
        Ok(Some((KVRecord { op, key, value }, body + keylen + valuelen)))
    }
}

/// Copies `count` bytes of `log` starting at `from` into a fresh vector.
fn read_exact(log: &[u8], from: usize, count: usize) -> (r: Vec<u8>)
    requires
        from + count <= log@.len(),
    ensures
        r@ == log@.subrange(from as int, from + count),
{
    let n = log.len();
    let mut out: Vec<u8> = Vec::new();
    let mut i: usize = 0;
    while i < count
        invariant
            i <= count,
            from + count <= n,
            n == log@.len(),
            out@ == log@.subrange(from as int, from + i),
        decreases count - i,
    {
        out.push(log[from + i]);
        assert(out@ =~= log@.subrange(from as int, from + i + 1));
        i = i + 1;
    }
    out
}

/// A write-optimised record: it borrows its key and value to avoid
/// copies until the single buffer is built.
#[derive(Debug)]
pub struct WriteKVRecord<'a> {
    pub seq: u32,
    pub op: u8,
    pub key: &'a [u8],
    pub value: &'a [u8],
}

impl<'a> WriteKVRecord<'a> {
    /// Builds the serialised form of the record.
    pub fn serialize(&self) -> (r: Vec<u8>)
        requires
            self.key@.len() <= MAX_KEY_LEN,
            self.value@.len() <= MAX_VALUE_LEN,
        ensures
            r@ == spec_kv_record(self.seq, self.op, self.key@, self.value@),
    {
        let mut buf = Vec::<u8>::new();
        buf.push(MAGIC);
        push_u32_be(&mut buf, self.seq);
        buf.push(self.op);
        push_u16_be(&mut buf, self.key.len() as u16);
        push_u32_be(&mut buf, self.value.len() as u32);
        push_u32_be(&mut buf, 0u32);
        extend_from(&mut buf, self.key);
        extend_from(&mut buf, self.value);
        assert(buf@ =~= spec_kv_record(self.seq, self.op, self.key@, self.value@));
        buf
    }
}

/// Appends every byte of `src` to `buf`.
pub fn extend_from(buf: &mut Vec<u8>, src: &[u8])
    ensures
        final(buf)@ == old(buf)@ + src@,
{
    let mut i: usize = 0;
    while i < src.len()
        invariant
            i <= src@.len(),
            buf@ == old(buf)@ + src@.subrange(0, i as int),
        decreases src@.len() - i,
    {
        buf.push(src[i]);
        assert(buf@ =~= old(buf)@ + src@.subrange(0, i + 1));
        i = i + 1;
    }
    assert(buf@ =~= old(buf)@ + src@);
}

} // verus!
