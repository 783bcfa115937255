//! The error type shared by storage, engines and the protocol.

use crate::frame::ReplicaId;
use crate::text::{push_decimal, push_hex};
use vstd::prelude::*;
use vstd::string::StringExecFns;

verus! {

/// Errors of storage, engines and the protocol.
#[derive(Debug, PartialEq, Eq)]
pub enum SodError {
    /// A record or frame failed structural or hash verification.
    Corrupt(&'static str),
    /// A frame's seq is not contiguous with the feed we hold.
    Gap { origin: ReplicaId, have: u64, got: u64 },
    /// Two distinct frames claimed the same `(origin, seq)`.
    Equivocation { origin: ReplicaId, seq: u64 },
    /// The origin's feed was previously poisoned; its frames are refused.
    Poisoned(ReplicaId),
    /// Sync handshake refused: protocol or schema version differs.
    VersionMismatch { ours: (u16, u32), theirs: (u16, u32) },
    /// An I/O error from a log store or transport.
    Io(String),
}

impl Clone for SodError {
    fn clone(&self) -> (r: Self)
        ensures
            r == *self,
    {
        match self {
            SodError::Corrupt(what) => SodError::Corrupt(what),
            SodError::Gap { origin, have, got } => SodError::Gap {
                origin: *origin,
                have: *have,
                got: *got,
            },
            SodError::Equivocation { origin, seq } => SodError::Equivocation {
                origin: *origin,
                seq: *seq,
            },
            SodError::Poisoned(origin) => SodError::Poisoned(*origin),
            SodError::VersionMismatch { ours, theirs } => SodError::VersionMismatch {
                ours: *ours,
                theirs: *theirs,
            },
            SodError::Io(e) => SodError::Io(e.clone()),
        }
    }
}

impl SodError {
    /// The error is about an origin's feed: only a replica, which holds the
    /// feed, gives it.
    pub open spec fn blames_feed(self) -> bool {
        self is Equivocation || self is Poisoned
    }

    /// The message shown for this error.
    pub open spec fn message(self) -> Seq<char> {
        match self {
            SodError::Corrupt(what) => "corrupt record: "@ + what@,
            SodError::Gap { origin, have, got } => "gap in feed "@ + crate::text::hex(origin.0@)
                + ": have "@ + crate::text::decimal(have as nat) + ", got "@
                + crate::text::decimal(got as nat),
            SodError::Equivocation { origin, seq } => "equivocation in feed "@ + crate::text::hex(
                origin.0@,
            ) + " at seq "@ + crate::text::decimal(seq as nat),
            SodError::Poisoned(origin) => "feed "@ + crate::text::hex(origin.0@)
                + " is poisoned"@,
            SodError::VersionMismatch { ours, theirs } => "version mismatch: ours protocol "@
                + crate::text::decimal(ours.0 as nat) + "/schema "@ + crate::text::decimal(
                ours.1 as nat,
            ) + ", theirs protocol "@ + crate::text::decimal(theirs.0 as nat) + "/schema "@
                + crate::text::decimal(theirs.1 as nat),
            SodError::Io(e) => "io: "@ + e@,
        }
    }

    pub fn to_string(&self) -> (s: String)
        ensures
            s@ == self.message(),
    {
        let mut out = String::new();
        match self {
            SodError::Corrupt(what) => {
                out.append("corrupt record: ");
                out.append(what);
            },
            SodError::Gap { origin, have, got } => {
                out.append("gap in feed ");
                push_hex(&mut out, origin.0.as_slice());
                out.append(": have ");
                push_decimal(&mut out, *have);
                out.append(", got ");
                push_decimal(&mut out, *got);
            },
            SodError::Equivocation { origin, seq } => {
                out.append("equivocation in feed ");
                push_hex(&mut out, origin.0.as_slice());
                out.append(" at seq ");
                push_decimal(&mut out, *seq);
            },
            SodError::Poisoned(origin) => {
                out.append("feed ");
                push_hex(&mut out, origin.0.as_slice());
                out.append(" is poisoned");
            },
            SodError::VersionMismatch { ours, theirs } => {
                out.append("version mismatch: ours protocol ");
                push_decimal(&mut out, ours.0 as u64);
                out.append("/schema ");
                push_decimal(&mut out, ours.1 as u64);
                out.append(", theirs protocol ");
                push_decimal(&mut out, theirs.0 as u64);
                out.append("/schema ");
                push_decimal(&mut out, theirs.1 as u64);
            },
            SodError::Io(e) => {
                out.append("io: ");
                out.append(e.as_str());
            },
        }
        assert(out@ =~= self.message());
        out
    }
}

} // verus!
