//! The typed errors of the write-ahead log.
//!
//! Corruption found during replay (a wrong magic byte, an unknown
//! operation tag, non-zero padding, a record cut short, a sequence
//! number out of order) aborts recovery outright: there is no partial
//! or skip-and-continue recovery, since an undetected gap would
//! silently lose committed writes. A lifecycle misuse (writing or
//! resetting before replay, replaying twice) is a caller bug and is
//! reported as `BadWALState`. I/O failures belong to the layer that
//! owns the file and never reach this library.

use vstd::prelude::*;

verus! {

#[derive(Clone, Copy, Debug, PartialEq, Eq, Structural)]
pub enum WalError {
    /// An operation was invoked in the wrong lifecycle state:
    /// `write`/`reset` before `replay`, or a second `replay`.
    BadWALState,
    /// A replayed entry's sequence number differs from the expected
    /// next value.
    BadWALSeq { expected: u32, actual: u32 },
    /// A present header starts with the wrong magic byte.
    BadMagic,
    /// A present header carries an unrecognized operation tag.
    BadOp,
    /// The required-zero padding field of a header is non-zero.
    BadPad,
    /// A declared key or value body is longer than the bytes that
    /// actually remain: the record was cut short.
    TruncatedRecord,
}

} // verus!
