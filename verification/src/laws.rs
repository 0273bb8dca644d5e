//! The guarantees of the log as a whole: what replay makes of the
//! bytes that writing produced, and how surely it rejects bytes that
//! a crash or corruption altered.

use vstd::prelude::*;

use crate::error::WalError;
use crate::kvrecord::{spec_parse_kv, KvParse, MAX_KEY_LEN, MAX_VALUE_LEN};
use crate::wal::{
    replay_index, replay_prepend, spec_parse_wal, spec_replay, spec_wal_record, WalEntry, WalParse,
};

verus! {

/// Every pair's key and value fit their length fields.
pub open spec fn pairs_wf(pairs: Seq<(Seq<u8>, Seq<u8>)>) -> bool {
    forall|i: int|
        0 <= i < pairs.len() ==> (#[trigger] pairs[i]).0.len() <= MAX_KEY_LEN && pairs[i].1.len()
            <= MAX_VALUE_LEN
}

/// The log bytes that writing the pairs in order produces, the first
/// entry numbered `start`.
pub open spec fn spec_log_from(pairs: Seq<(Seq<u8>, Seq<u8>)>, start: int) -> Seq<u8>
    decreases pairs.len(),
{
    if pairs.len() == 0 {
        Seq::empty()
    } else {
        spec_wal_record(start as u32, pairs[0].0, pairs[0].1) + spec_log_from(
            pairs.skip(1),
            start + 1,
        )
    }
}

/// The entries those bytes stand for, numbered from `start`.
pub open spec fn entries_from(pairs: Seq<(Seq<u8>, Seq<u8>)>, start: int) -> Seq<WalEntry>
    decreases pairs.len(),
{
    if pairs.len() == 0 {
        Seq::empty()
    } else {
        seq![WalEntry { seq: start as u32, key: pairs[0].0, value: pairs[0].1 }] + entries_from(
            pairs.skip(1),
            start + 1,
        )
    }
}

/// Writing N pairs yields N entries, the i-th carrying sequence
/// number `start + i` and the i-th pair.
pub proof fn lemma_entries_from(pairs: Seq<(Seq<u8>, Seq<u8>)>, start: int)
    ensures
        entries_from(pairs, start).len() == pairs.len(),
        forall|i: int|
            0 <= i < pairs.len() ==> (#[trigger] entries_from(pairs, start)[i]) == (WalEntry {
                seq: (start + i) as u32,
                key: pairs[i].0,
                value: pairs[i].1,
            }),
    decreases pairs.len(),
{
    if pairs.len() > 0 {
        lemma_entries_from(pairs.skip(1), start + 1);
        assert forall|i: int| 0 <= i < pairs.len() implies (#[trigger] entries_from(
            pairs,
            start,
        )[i]) == (WalEntry { seq: (start + i) as u32, key: pairs[i].0, value: pairs[i].1 }) by {
            if i > 0 {
                assert(entries_from(pairs, start)[i] == entries_from(pairs.skip(1), start + 1)[i
                    - 1]);
                assert(pairs.skip(1)[i - 1] == pairs[i]);
            }
        }
    }
}

/// Round-trip: parsing the bytes that serializing an entry produced,
/// whatever follows them, reproduces the sequence number and the key
/// and value bytes exactly, and consumes exactly the entry.
pub proof fn lemma_record_roundtrip(seqno: u32, key: Seq<u8>, value: Seq<u8>, tail: Seq<u8>)
    requires
        key.len() <= MAX_KEY_LEN,
        value.len() <= MAX_VALUE_LEN,
    ensures
        spec_parse_wal(spec_wal_record(seqno, key, value) + tail, 0) == WalParse::Entry(
            WalEntry { seq: seqno, key, value },
            22 + key.len() as int + value.len() as int,
        ),
{
    let klen = key.len() as int;
    let vlen = value.len() as int;
    let rec = spec_wal_record(seqno, key, value);
    let log = rec + tail;
    assert(rec.len() == 22 + klen + vlen);
    assert(log[0] == crate::kvrecord::MAGIC);
    assert(log.subrange(1, 5) =~= crate::bytes::be32_of(seqno));
    crate::bytes::lemma_be32_roundtrip(seqno);
    assert(log[6] == crate::kvrecord::MAGIC);
    assert(log[11] == crate::kvrecord::OP_SET);
    assert(log.subrange(12, 14) =~= crate::bytes::be16_of(klen as u16));
    assert(log.subrange(14, 18) =~= crate::bytes::be32_of(vlen as u32));
    assert(log.subrange(18, 22) =~= crate::bytes::be32_of(0u32));
    crate::bytes::lemma_be16_roundtrip(klen as u16);
    crate::bytes::lemma_be32_roundtrip(vlen as u32);
    crate::bytes::lemma_be32_roundtrip(0u32);
    assert(log.subrange(22, 22 + klen) =~= key);
    assert(log.subrange(22 + klen, 22 + klen + vlen) =~= value);
    assert(spec_parse_kv(log, 6) == KvParse::Rec(
        crate::kvrecord::OP_SET,
        key,
        value,
        22 + klen + vlen,
    ));
}

/// Parsing at a position past a prefix sees exactly what parsing the
/// suffix from its start sees.
proof fn lemma_parse_wal_shift(pre: Seq<u8>, log: Seq<u8>, pos: int)
    requires
        0 <= pos <= log.len(),
    ensures
        spec_parse_wal(pre + log, pre.len() + pos) == (match spec_parse_wal(log, pos) {
            WalParse::Entry(e, end) => WalParse::Entry(e, pre.len() + end),
            other => other,
        }),
{
    let full = pre + log;
    let shift = pre.len() as int;
    assert(full.len() - (shift + pos) == log.len() - pos);
    assert forall|i: int| 0 <= i < log.len() implies full[shift + i] == log[i] by {}
    assert forall|x: int, y: int| 0 <= x <= y <= log.len() implies full.subrange(
        shift + x,
        shift + y,
    ) == log.subrange(x, y) by {
        assert(full.subrange(shift + x, shift + y) =~= log.subrange(x, y));
    }
    if log.len() - pos >= 6 {
        assert(full[shift + pos] == log[pos]);
        assert(full.subrange(shift + pos + 1, shift + pos + 5) == log.subrange(pos + 1, pos + 5));
        if log.len() - (pos + 6) >= 16 {
            assert(full[shift + pos + 6] == log[pos + 6]);
            assert(full[shift + pos + 11] == log[pos + 11]);
            assert(full.subrange(shift + pos + 12, shift + pos + 16) == log.subrange(
                pos + 12,
                pos + 16,
            ));
            assert(full.subrange(shift + pos + 12, shift + pos + 14) == log.subrange(
                pos + 12,
                pos + 14,
            ));
            assert(full.subrange(shift + pos + 14, shift + pos + 18) == log.subrange(
                pos + 14,
                pos + 18,
            ));
            let keylen = crate::bytes::be16_val(log.subrange(pos + 12, pos + 14)) as int;
            let valuelen = crate::bytes::be32_val(log.subrange(pos + 14, pos + 18)) as int;
            if log.len() - (pos + 22) >= keylen + valuelen {
                assert(full.subrange(shift + pos + 22, shift + pos + 22 + keylen) == log.subrange(
                    pos + 22,
                    pos + 22 + keylen,
                ));
                assert(full.subrange(
                    shift + pos + 22 + keylen,
                    shift + pos + 22 + keylen + valuelen,
                ) == log.subrange(pos + 22, pos + 22 + keylen + valuelen).subrange(
                    keylen,
                    keylen + valuelen,
                ));
                assert(full.subrange(
                    shift + pos + 22 + keylen,
                    shift + pos + 22 + keylen + valuelen,
                ) =~= log.subrange(pos + 22 + keylen, pos + 22 + keylen + valuelen));
            }
        }
    }
}

/// Replaying past a prefix is replaying the suffix.
proof fn lemma_replay_shift(pre: Seq<u8>, log: Seq<u8>, pos: int, expected: int)
    requires
        0 <= pos <= log.len(),
    ensures
        spec_replay(pre + log, pre.len() + pos, expected) == spec_replay(log, pos, expected),
    decreases log.len() - pos,
{
    lemma_parse_wal_shift(pre, log, pos);
    crate::wal::lemma_parse_wal_bounds(log, pos);
    match spec_parse_wal(log, pos) {
        WalParse::Entry(e, end) => {
            if e.seq == expected {
                lemma_replay_shift(pre, log, end, expected + 1);
            }
        },
        _ => {},
    }
}

/// Prefixing twice is prefixing by the concatenation.
proof fn lemma_prepend_assoc(
    p1: Seq<WalEntry>,
    p2: Seq<WalEntry>,
    r: Result<(Seq<WalEntry>, int), WalError>,
)
    ensures
        replay_prepend(p1, replay_prepend(p2, r)) == replay_prepend(p1 + p2, r),
{
    match r {
        Ok((entries, n)) => {
            assert(p1 + (p2 + entries) =~= (p1 + p2) + entries);
        },
        Err(_) => {},
    }
}

/// Replaying the bytes of correctly numbered pairs, followed by
/// anything, consumes exactly those entries and goes on with the rest.
#[verifier::rlimit(50)]
pub proof fn lemma_replay_log(pairs: Seq<(Seq<u8>, Seq<u8>)>, start: int, tail: Seq<u8>)
    requires
        pairs_wf(pairs),
        0 <= start,
        start + pairs.len() <= 0x1_0000_0000,
    ensures
        spec_replay(spec_log_from(pairs, start) + tail, 0, start) == replay_prepend(
            entries_from(pairs, start),
            spec_replay(tail, 0, start + pairs.len()),
        ),
    decreases pairs.len(),
{
    if pairs.len() == 0 {
        assert(spec_log_from(pairs, start) + tail =~= tail);
        match spec_replay(tail, 0, start) {
            Ok((entries, n)) => {
                assert(Seq::<WalEntry>::empty() + entries =~= entries);
            },
            Err(_) => {},
        }
    } else {
        let key = pairs[0].0;
        let value = pairs[0].1;
        let rec = spec_wal_record(start as u32, key, value);
        let rest_log = spec_log_from(pairs.skip(1), start + 1) + tail;
        let log = rec + rest_log;
        assert(spec_log_from(pairs, start) + tail =~= log);
        lemma_record_roundtrip(start as u32, key, value, rest_log);
        let e0 = WalEntry { seq: start as u32, key, value };
        let end = 22 + key.len() + value.len();
        assert(spec_parse_wal(log, 0) == WalParse::Entry(e0, end as int));
        assert(rec.len() == end);
        lemma_replay_shift(rec, rest_log, 0, start + 1);
        assert(spec_replay(log, rec.len() as int, start + 1) == spec_replay(
            rest_log,
            0,
            start + 1,
        ));
        lemma_replay_log(pairs.skip(1), start + 1, tail);
        assert(spec_replay(log, 0, start) == replay_prepend(
            seq![e0],
            spec_replay(rest_log, 0, start + 1),
        ));
        lemma_prepend_assoc(
            seq![e0],
            entries_from(pairs.skip(1), start + 1),
            spec_replay(tail, 0, start + pairs.len()),
        );
        assert(seq![e0] + entries_from(pairs.skip(1), start + 1) == entries_from(pairs, start));
    }
}

/// Sequence monotonicity: replaying the log that N successful writes
/// from a fresh (or freshly reset) manager produced yields exactly
/// those N entries, numbered 0 to N-1 in write order, and leaves the
/// next sequence number at N.
pub proof fn lemma_write_replay_roundtrip(pairs: Seq<(Seq<u8>, Seq<u8>)>)
    requires
        pairs_wf(pairs),
        pairs.len() <= 0x1_0000_0000,
    ensures
        spec_replay(spec_log_from(pairs, 0), 0, 0) == Ok::<(Seq<WalEntry>, int), WalError>(
            (entries_from(pairs, 0), pairs.len() as int),
        ),
        entries_from(pairs, 0).len() == pairs.len(),
        forall|i: int|
            0 <= i < pairs.len() ==> (#[trigger] entries_from(pairs, 0)[i]) == (WalEntry {
                seq: i as u32,
                key: pairs[i].0,
                value: pairs[i].1,
            }),
{
    lemma_replay_log(pairs, 0, Seq::empty());
    assert(spec_log_from(pairs, 0) + Seq::<u8>::empty() =~= spec_log_from(pairs, 0));
    assert(spec_replay(Seq::empty(), 0, pairs.len() as int) == Ok::<(Seq<WalEntry>, int), WalError>(
        (Seq::empty(), pairs.len() as int),
    ));
    assert(entries_from(pairs, 0) + Seq::<WalEntry>::empty() =~= entries_from(pairs, 0));
    lemma_entries_from(pairs, 0);
}

/// Last-writer-wins: the index that replay builds maps a key to the
/// value of the last entry that set it.
pub proof fn lemma_last_writer_wins(entries: Seq<WalEntry>, i: int)
    requires
        0 <= i < entries.len(),
        forall|j: int| i < j < entries.len() ==> (#[trigger] entries[j]).key != entries[i].key,
    ensures
        replay_index(entries).contains_key(entries[i].key),
        replay_index(entries)[entries[i].key] == entries[i].value,
    decreases entries.len(),
{
    if i < entries.len() - 1 {
        assert(entries.drop_last()[i] == entries[i]);
        lemma_last_writer_wins(entries.drop_last(), i);
    }
}

/// A key that no entry set is absent from the index replay builds.
pub proof fn lemma_unwritten_key_absent(entries: Seq<WalEntry>, k: Seq<u8>)
    requires
        forall|j: int| 0 <= j < entries.len() ==> (#[trigger] entries[j]).key != k,
    ensures
        !replay_index(entries).contains_key(k),
    decreases entries.len(),
{
    if entries.len() > 0 {
        lemma_unwritten_key_absent(entries.drop_last(), k);
    }
}

/// Parsing a record whose body was cut short — the 22 header bytes
/// survive but not the whole key and value — is the truncation fault,
/// never a partially decoded record.
proof fn lemma_parse_truncated_record(seqno: u32, key: Seq<u8>, value: Seq<u8>, keep: int)
    requires
        key.len() <= MAX_KEY_LEN,
        value.len() <= MAX_VALUE_LEN,
        22 <= keep < 22 + key.len() + value.len(),
    ensures
        spec_parse_wal(spec_wal_record(seqno, key, value).subrange(0, keep), 0) == WalParse::Bad(
            WalError::TruncatedRecord,
        ),
{
    let klen = key.len() as int;
    let vlen = value.len() as int;
    let rec = spec_wal_record(seqno, key, value);
    assert(rec.len() == 22 + klen + vlen);
    let log = rec.subrange(0, keep);
    assert(log[0] == rec[0] && rec[0] == crate::kvrecord::MAGIC);
    assert(log[6] == rec[6] && rec[6] == crate::kvrecord::MAGIC);
    assert(log[11] == rec[11] && rec[11] == crate::kvrecord::OP_SET);
    assert(log.subrange(12, 14) =~= crate::bytes::be16_of(klen as u16));
    assert(log.subrange(14, 18) =~= crate::bytes::be32_of(vlen as u32));
    assert(log.subrange(18, 22) =~= crate::bytes::be32_of(0u32));
    crate::bytes::lemma_be16_roundtrip(klen as u16);
    crate::bytes::lemma_be32_roundtrip(vlen as u32);
    crate::bytes::lemma_be32_roundtrip(0u32);
    assert(log.len() - 22 < klen + vlen);
    assert(spec_parse_kv(log, 6) == KvParse::Bad(WalError::TruncatedRecord));
}

/// Crash-truncation safety: a well-formed log cut anywhere inside the
/// body of its last record makes replay fail with the truncation
/// fault; the valid prefix is never silently accepted.
pub proof fn lemma_truncation_detected(pairs: Seq<(Seq<u8>, Seq<u8>)>, cut: int)
    requires
        pairs_wf(pairs),
        1 <= pairs.len() <= 0x1_0000_0000,
        spec_log_from(pairs.drop_last(), 0).len() + 22 <= cut < spec_log_from(pairs, 0).len(),
    ensures
        spec_replay(spec_log_from(pairs, 0).subrange(0, cut), 0, 0) == Err::<
            (Seq<WalEntry>, int),
            WalError,
        >(WalError::TruncatedRecord),
{
    let n = pairs.len() as int;
    let front = pairs.drop_last();
    let lastkey = pairs.last().0;
    let lastvalue = pairs.last().1;
    let lastrec = spec_wal_record((n - 1) as u32, lastkey, lastvalue);
    lemma_log_snoc(pairs, 0);
    let flog = spec_log_from(front, 0);
    let log = spec_log_from(pairs, 0);
    assert(log == flog + lastrec);
    let keep = cut - flog.len();
    let partial = lastrec.subrange(0, keep);
    assert(log.subrange(0, cut) =~= flog + partial);
    assert(pairs_wf(front));
    lemma_replay_log(front, 0, partial);
    lemma_parse_truncated_record((n - 1) as u32, lastkey, lastvalue, keep);
}

/// The serialized log of the pairs is the log of all but the last,
/// followed by the last entry's record.
proof fn lemma_log_snoc(pairs: Seq<(Seq<u8>, Seq<u8>)>, start: int)
    requires
        pairs.len() >= 1,
    ensures
        spec_log_from(pairs, start) == spec_log_from(pairs.drop_last(), start) + spec_wal_record(
            (start + pairs.len() - 1) as u32,
            pairs.last().0,
            pairs.last().1,
        ),
    decreases pairs.len(),
{
    if pairs.len() == 1 {
        assert(spec_log_from(pairs.skip(1), start + 1) =~= Seq::<u8>::empty());
        assert(spec_log_from(pairs.drop_last(), start) =~= Seq::<u8>::empty());
        assert(spec_log_from(pairs, start) =~= spec_wal_record(
            start as u32,
            pairs[0].0,
            pairs[0].1,
        ));
        assert(spec_log_from(pairs.drop_last(), start) + spec_wal_record(
            start as u32,
            pairs.last().0,
            pairs.last().1,
        ) =~= spec_wal_record(start as u32, pairs[0].0, pairs[0].1));
    } else {
        lemma_log_snoc(pairs.skip(1), start + 1);
        assert(pairs.skip(1).drop_last() =~= pairs.drop_last().skip(1));
        assert(pairs.skip(1).last() == pairs.last());
        let head = spec_wal_record(start as u32, pairs[0].0, pairs[0].1);
        let mid = spec_log_from(pairs.drop_last().skip(1), start + 1);
        let lastrec = spec_wal_record(
            (start + pairs.len() - 1) as u32,
            pairs.last().0,
            pairs.last().1,
        );
        assert(spec_log_from(pairs, start) == head + (mid + lastrec));
        assert(pairs.drop_last()[0] == pairs[0]);
        assert(spec_log_from(pairs.drop_last(), start) == head + mid);
        assert(head + (mid + lastrec) =~= (head + mid) + lastrec);
    }
}

/// Sequence-gap detection: an entry whose stored sequence number is
/// not the expected next value makes replay fail with the sequence
/// fault carrying exactly the expected and the actual number.
pub proof fn lemma_sequence_gap_detected(
    pairs: Seq<(Seq<u8>, Seq<u8>)>,
    wrongseq: u32,
    key: Seq<u8>,
    value: Seq<u8>,
    tail: Seq<u8>,
)
    requires
        pairs_wf(pairs),
        pairs.len() <= 0xFFFF_FFFF,
        key.len() <= MAX_KEY_LEN,
        value.len() <= MAX_VALUE_LEN,
        wrongseq != pairs.len(),
    ensures
        spec_replay(spec_log_from(pairs, 0) + spec_wal_record(wrongseq, key, value) + tail, 0, 0)
            == Err::<(Seq<WalEntry>, int), WalError>(
            WalError::BadWALSeq { expected: pairs.len() as u32, actual: wrongseq },
        ),
{
    let n = pairs.len() as int;
    let rec = spec_wal_record(wrongseq, key, value);
    let log = spec_log_from(pairs, 0) + rec + tail;
    assert(log =~= spec_log_from(pairs, 0) + (rec + tail));
    lemma_replay_log(pairs, 0, rec + tail);
    lemma_record_roundtrip(wrongseq, key, value, tail);
    assert(spec_replay(rec + tail, 0, n) == Err::<(Seq<WalEntry>, int), WalError>(
        WalError::BadWALSeq { expected: n as u32, actual: wrongseq },
    ));
}

/// Empty-store bootstrap: replaying an empty log — the store did not
/// exist yet — succeeds with an empty index and next sequence 0.
pub proof fn lemma_empty_log_bootstrap()
    ensures
        spec_replay(Seq::empty(), 0, 0) == Ok::<(Seq<WalEntry>, int), WalError>(
            (Seq::empty(), 0),
        ),
        replay_index(Seq::empty()) == Map::<Seq<u8>, Seq<u8>>::empty(),
{
}

} // verus!
