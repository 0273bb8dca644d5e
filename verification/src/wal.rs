//! The log envelope and the WAL manager.
//!
//! The envelope frames one physical log entry: a magic byte, the
//! entry's four-byte big-endian sequence number and its operation
//! tag, followed by the record codec payload.
//!
//! ```text
//! 0       1         5       6
//! | magic | u32 seq | u8 op | codec record |
//!   -----------------------   ------------
//!     6 byte envelope header   see kvrecord
//! ```
//!
//! The manager owns the append sequence counter and the lifecycle:
//! constructed unopened, `replay` validates every entry of the log's
//! bytes and rebuilds the index, then `write` frames new entries and
//! `reset` starts the counters over. The log file itself lives with
//! the caller, who hands the stored bytes in and appends the framed
//! bytes out.

use vstd::prelude::*;

use crate::bytes::{be32_of, be32_val, read_u32_be};
use crate::error::WalError;
use crate::kvrecord::{
    extend_from, spec_kv_record, spec_parse_kv, KVRecord, KvParse, WriteKVRecord, MAGIC,
    MAX_KEY_LEN, MAX_VALUE_LEN, OP_SET,
};
use crate::memtable::Memtable;

verus! {

/// Number of bytes in the envelope's own header.
pub const WAL_HEADER_LEN: usize = 6;

/// No log this library accepts is longer than this many bytes: each
/// entry takes at least 22, so the sequence counter of a longer log
/// could outgrow its 32 bits.
pub const MAX_LOG_LEN: u64 = 0xFFFF_FFFF * 22;

/// Whether an append must be forced durably to stable storage before
/// it is acknowledged, or may stay in the OS's buffers.
#[derive(Clone, Copy, Debug, PartialEq, Eq, Structural)]
pub enum WALSync {
    Full,
    Default,
}

/// One decoded log entry, as the replay specification sees it.
pub ghost struct WalEntry {
    pub seq: u32,
    pub key: Seq<u8>,
    pub value: Seq<u8>,
}

/// What one attempt to read an envelope entry from `log` at `pos`
/// yields.
pub ghost enum WalParse {
    /// Fewer bytes than a header remain: the clean end-of-log
    /// sentinel, not an error.
    End,
    /// Corruption: a bad magic byte or operation tag, non-zero
    /// padding, or a body cut short.
    Bad(WalError),
    /// A full entry and the position just past its last byte.
    Entry(WalEntry, int),
}

/// The bytes of one complete log entry: the envelope header followed
/// by the codec record, which carries the same sequence and tag.
pub open spec fn spec_wal_record(seq: u32, key: Seq<u8>, value: Seq<u8>) -> Seq<u8> {
    seq![MAGIC] + be32_of(seq) + seq![OP_SET] + spec_kv_record(seq, OP_SET, key, value)
}

/// The envelope's read rules at position `pos` of `log`: a short
/// envelope header is the clean end of the log; a wrong magic byte is
/// corruption; otherwise the sequence number is read and the codec
/// rules decide the rest.
pub open spec fn spec_parse_wal(log: Seq<u8>, pos: int) -> WalParse
    recommends
        0 <= pos <= log.len(),
{
    if log.len() - pos < WAL_HEADER_LEN {
        WalParse::End
    } else if log[pos] != MAGIC {
        WalParse::Bad(WalError::BadMagic)
    } else {
        let seq = be32_val(log.subrange(pos + 1, pos + 5));
        match spec_parse_kv(log, pos + 6) {
            KvParse::End => WalParse::End,
            KvParse::Bad(e) => WalParse::Bad(e),
            KvParse::Rec(_, key, value, end) => WalParse::Entry(
                WalEntry { seq, key, value },
                end,
            ),
        }
    }
}

/// A successfully parsed entry spans at least its 22 header bytes and
/// ends within the log.
pub proof fn lemma_parse_wal_bounds(log: Seq<u8>, pos: int)
    requires
        0 <= pos <= log.len(),
    ensures
        spec_parse_wal(log, pos) matches WalParse::Entry(e, end) ==> pos + 22 + e.key.len()
            + e.value.len() == end && pos + 22 <= end <= log.len(),
{
    if log.len() - pos >= 6 {
        crate::kvrecord::lemma_parse_kv_bounds(log, pos + 6);
    }
}

/// The outcome of replaying `log` from `pos`, expecting the next
/// entry to carry sequence number `expected`: either every entry up
/// to the clean end of the log, in order, together with the sequence
/// number that follows the last one, or the error that aborts
/// recovery. An entry whose sequence differs from the expected value
/// fails with both numbers; corruption fails as the parse rules say.
pub open spec fn spec_replay(log: Seq<u8>, pos: int, expected: int) -> Result<
    (Seq<WalEntry>, int),
    WalError,
>
    decreases log.len() - pos,
    when 0 <= pos <= log.len()
{
    match spec_parse_wal(log, pos) {
        WalParse::End => Ok((Seq::empty(), expected)),
        WalParse::Bad(e) => Err(e),
        WalParse::Entry(e, end) => if e.seq != expected {
            Err(WalError::BadWALSeq { expected: expected as u32, actual: e.seq })
        } else if pos < end <= log.len() {
            match spec_replay(log, end, expected + 1) {
                Ok((rest, n)) => Ok((seq![e] + rest, n)),
                Err(e2) => Err(e2),
            }
        } else {
            // Unreachable: a parsed entry always ends past `pos` and
            // within the log.
            Err(WalError::TruncatedRecord)
        },
    }
}

/// Prefixes the entries of a replay outcome with already-replayed
/// entries.
pub open spec fn replay_prepend(
    pre: Seq<WalEntry>,
    r: Result<(Seq<WalEntry>, int), WalError>,
) -> Result<(Seq<WalEntry>, int), WalError> {
    match r {
        Ok((entries, n)) => Ok((pre + entries, n)),
        Err(e) => Err(e),
    }
}

/// The index that a sequence of replayed entries builds: each entry
/// inserts its key, and the later entry for a key supersedes the
/// earlier one.
pub open spec fn replay_index(entries: Seq<WalEntry>) -> Map<Seq<u8>, Seq<u8>>
    decreases entries.len(),
{
    if entries.len() == 0 {
        Map::empty()
    } else {
        replay_index(entries.drop_last()).insert(entries.last().key, entries.last().value)
    }
}

/// Replaying one more entry inserts its pair into the index.
pub proof fn lemma_replay_index_push(entries: Seq<WalEntry>, e: WalEntry)
    ensures
        replay_index(entries.push(e)) == replay_index(entries).insert(e.key, e.value),
{
    assert(entries.push(e).drop_last() =~= entries);
    assert(entries.push(e).last() == e);
}

/// Composing two prefixes is prefixing by their concatenation.
proof fn lemma_prepend_step(
    pre: Seq<WalEntry>,
    e: WalEntry,
    r: Result<(Seq<WalEntry>, int), WalError>,
)
    ensures
        replay_prepend(pre, replay_prepend(seq![e], r)) == replay_prepend(pre.push(e), r),
{
    match r {
        Ok((entries, n)) => {
            assert(pre + (seq![e] + entries) =~= pre.push(e) + entries);
        },
        Err(_) => {},
    }
}

/// One log entry, decoded: its sequence number, operation tag, and
/// the owned key and value bytes.
#[derive(Debug)]
pub struct WALRecord {
    pub seq: u32,
    pub op: u8,
    pub key: Vec<u8>,
    pub value: Vec<u8>,
}

impl WALRecord {
    /// Reads a single envelope entry from `log` at `pos`.
    ///
    /// `Ok(None)` is the clean end-of-log sentinel; `Ok(Some(..))`
    /// carries the entry and the position just past it; `Err(..)`
    /// reports corruption exactly as `spec_parse_wal` describes it.
    pub fn read_one(log: &[u8], pos: usize) -> (r: Result<Option<(WALRecord, usize)>, WalError>)
        requires
            pos <= log@.len(),
        ensures
            match spec_parse_wal(log@, pos as int) {
                WalParse::End => r matches Ok(o) && o is None,
                WalParse::Bad(e) => r matches Err(e2) && e2 == e,
                WalParse::Entry(e, end) => r matches Ok(o) && o matches Some((rec, p2)) && rec.seq
                    == e.seq && rec.op == OP_SET && rec.key@ == e.key && rec.value@ == e.value && p2
                    == end,
            },
    {
        let len = log.len();
        if len - pos < WAL_HEADER_LEN {
            return Ok(None);
        }
        if log[pos] != MAGIC {
            return Err(WalError::BadMagic);
        }
        let seq = read_u32_be(log, pos + 1);
        match KVRecord::read_one(log, pos + 6) {
            Err(e) => Err(e),
            Ok(None) => Ok(None),
            Ok(Some((kv, p2))) => Ok(
                Some((WALRecord { seq, op: kv.op, key: kv.key, value: kv.value }, p2)),
            ),
        }
    }

    /// Appends one complete entry for `seq`, `key` and `value` to
    /// `buf`, so the caller can hand the log file the whole entry in
    /// a single write and a torn write can only happen below that
    /// call, never split across two logical entries.
    pub fn write_one(buf: &mut Vec<u8>, seq: u32, key: &[u8], value: &[u8])
        requires
            key@.len() <= MAX_KEY_LEN,
            value@.len() <= MAX_VALUE_LEN,
        ensures
            final(buf)@ == old(buf)@ + spec_wal_record(seq, key@, value@),
    {
        buf.push(MAGIC);
        crate::bytes::push_u32_be(buf, seq);
        buf.push(OP_SET);
        let payload = WriteKVRecord { seq, op: OP_SET, key, value }.serialize();
        extend_from(buf, payload.as_slice());
        assert(buf@ =~= old(buf)@ + spec_wal_record(seq, key@, value@));
    }
}

/// The durable front door for all mutations: owner of the append
/// sequence counter and the replay/append/reset lifecycle. The log
/// file itself belongs to the caller; `replay` takes its bytes and
/// `write` returns the bytes to append.
pub struct WAL {
    ready: bool,
    sync: WALSync,
    nextseq: u32,
    wal_writes: u32,
}

/// Builds an unopened manager with the given durability policy.
/// `replay` must run before anything can be written.
pub fn new(sync: WALSync) -> (r: WAL)
    ensures
        r.wf(),
        !r.ready(),
        r.nextseq() == 0,
        r.wal_writes() == 0,
        r.sync() == sync,
{
    WAL { ready: false, sync, nextseq: 0, wal_writes: 0 }
}

impl WAL {
    /// Whether the manager has replayed its log and accepts writes.
    pub closed spec fn ready(self) -> bool {
        self.ready
    }

    /// The sequence number the next entry will carry.
    pub closed spec fn nextseq(self) -> u32 {
        self.nextseq
    }

    /// Number of entries written or replayed since the last reset.
    pub closed spec fn wal_writes(self) -> u32 {
        self.wal_writes
    }

    /// The durability policy chosen at construction.
    pub closed spec fn sync(self) -> WALSync {
        self.sync
    }

    /// Every entry written or replayed advanced the sequence counter
    /// once, and an unopened manager still counts from zero.
    pub open spec fn wf(self) -> bool {
        self.nextseq() == self.wal_writes() && (!self.ready() ==> self.nextseq() == 0)
    }

    /// Whether the manager has replayed its log and accepts writes.
    pub fn is_ready(&self) -> (r: bool)
        ensures
            r == self.ready(),
    {
        self.ready
    }

    /// The sequence number the next entry will carry.
    pub fn next_seq(&self) -> (r: u32)
        ensures
            r == self.nextseq(),
    {
        self.nextseq
    }

    /// Number of entries written or replayed since the last reset.
    pub fn write_count(&self) -> (r: u32)
        ensures
            r == self.wal_writes(),
    {
        self.wal_writes
    }

    /// The durability policy chosen at construction.
    pub fn sync_policy(&self) -> (r: WALSync)
        ensures
            r == self.sync(),
    {
        self.sync
    }

    /// Replays a log's bytes into a fresh index. Call this first.
    ///
    /// Streams entries from the start: each must carry exactly the
    /// expected next sequence number, starting at 0; its pair is then
    /// applied to the index, the later writer winning. Stops at the
    /// first clean end-of-log. Any corruption or sequence mismatch
    /// aborts recovery with the manager unchanged, so no partially
    /// replayed state survives. On success the manager is ready for
    /// appends and the index belongs to the caller.
    ///
    /// A log longer than `MAX_LOG_LEN` bytes could overflow the
    /// 32-bit sequence counter and is the caller's to refuse.
    pub fn replay(&mut self, log: &[u8]) -> (r: Result<Memtable, WalError>)
        requires
            old(self).wf(),
            log@.len() <= MAX_LOG_LEN,
        ensures
            final(self).wf(),
            final(self).sync() == old(self).sync(),
            old(self).ready() ==> (r matches Err(e) && e == WalError::BadWALState && *final(self)
                == *old(self)),
            !old(self).ready() ==> match spec_replay(log@, 0, 0) {
                Ok((entries, n)) => r matches Ok(mt) && mt.wf() && mt@ == replay_index(entries)
                    && final(self).ready() && final(self).nextseq() == n
                    && final(self).wal_writes() == n,
                Err(e) => r matches Err(e2) && e2 == e && *final(self) == *old(self),
            },
    {
        if self.ready {
            return Err(WalError::BadWALState);
        }
        let mut mt = Memtable::new();
        let mut pos: usize = 0;
        let mut seqno: u32 = 0;
        let ghost mut entries: Seq<WalEntry> = Seq::empty();
        proof {
            assert(Seq::<WalEntry>::empty() + Seq::<WalEntry>::empty()
                =~= Seq::<WalEntry>::empty());
        }
        loop
            invariant
                pos <= log@.len(),
                log@.len() <= MAX_LOG_LEN,
                mt.wf(),
                mt@ == replay_index(entries),
                entries.len() == seqno,
                22 * (seqno as int) <= pos,
                spec_replay(log@, 0, 0) == replay_prepend(
                    entries,
                    spec_replay(log@, pos as int, seqno as int),
                ),
                *self == *old(self),
                old(self).wf(),
                !old(self).ready(),
            decreases log@.len() - pos,
        {
            proof {
                lemma_parse_wal_bounds(log@, pos as int);
            }
            match WALRecord::read_one(log, pos) {
                Err(e) => {
                    return Err(e);
                },
                Ok(None) => {
                    proof {
                        assert(entries + Seq::<WalEntry>::empty() =~= entries);
                    }
                    self.nextseq = seqno;
                    self.wal_writes = seqno;
                    self.ready = true;
                    return Ok(mt);
                },
                Ok(Some((rec, p2))) => {
                    if rec.seq != seqno {
                        return Err(WalError::BadWALSeq { expected: seqno, actual: rec.seq });
                    }
                    let ghost e = WalEntry { seq: rec.seq, key: rec.key@, value: rec.value@ };
                    mt.insert(rec.key, rec.value);
                    proof {
                        lemma_replay_index_push(entries, e);
                        lemma_prepend_step(entries, e, spec_replay(log@, p2 as int, seqno + 1));
                        entries = entries.push(e);
                    }
                    seqno = seqno + 1;
                    pos = p2;
                },
            }
        }
    }

    /// Frames one SET entry under the current next sequence number
    /// and returns its bytes for the caller to append, durably if the
    /// policy is `Full`. The counter then advances, so the entries of
    /// a log are numbered 0, 1, 2, ... in write order.
    ///
    /// Fails with `BadWALState` before `replay` has run. The key and
    /// value must fit their length fields, and the 32-bit sequence
    /// counter must not be exhausted; both are the caller's to check
    /// first.
    pub fn write(&mut self, key: &[u8], value: &[u8]) -> (r: Result<Vec<u8>, WalError>)
        requires
            old(self).wf(),
            old(self).ready() ==> old(self).nextseq() < 0xFFFF_FFFFu32,
            old(self).ready() ==> key@.len() <= MAX_KEY_LEN,
            old(self).ready() ==> value@.len() <= MAX_VALUE_LEN,
        ensures
            final(self).wf(),
            final(self).sync() == old(self).sync(),
            !old(self).ready() ==> (r matches Err(e) && e == WalError::BadWALState && *final(self)
                == *old(self)),
            old(self).ready() ==> (r matches Ok(buf) && buf@ == spec_wal_record(
                old(self).nextseq(),
                key@,
                value@,
            ) && final(self).ready() && final(self).nextseq() == old(self).nextseq() + 1
                && final(self).wal_writes() == old(self).wal_writes() + 1),
    {
        if !self.ready {
            return Err(WalError::BadWALState);
        }
        let seq = self.nextseq;
        let mut buf: Vec<u8> = Vec::new();
        WALRecord::write_one(&mut buf, seq, key, value);
        proof {
            assert(Seq::<u8>::empty() + spec_wal_record(seq, key@, value@) =~= spec_wal_record(
                seq,
                key@,
                value@,
            ));
        }
        self.wal_writes = self.wal_writes + 1;
        self.nextseq = self.nextseq + 1;
        Ok(buf)
    }

    /// Starts the counters over at zero after the caller has deleted
    /// the old log file and persisted the index elsewhere; this layer
    /// cannot check that persistence, so calling it early loses data.
    /// The manager stays ready for appends. Fails with `BadWALState`
    /// before `replay` has run.
    pub fn reset(&mut self) -> (r: Result<(), WalError>)
        requires
            old(self).wf(),
        ensures
            final(self).wf(),
            final(self).sync() == old(self).sync(),
            !old(self).ready() ==> (r matches Err(e) && e == WalError::BadWALState && *final(self)
                == *old(self)),
            old(self).ready() ==> (r matches Ok(_) && final(self).ready() && final(self).nextseq()
                == 0 && final(self).wal_writes() == 0),
    {
        if !self.ready {
            return Err(WalError::BadWALState);
        }
        self.nextseq = 0;
        self.wal_writes = 0;
        Ok(())
    }
}

} // verus!
