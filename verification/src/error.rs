use vstd::prelude::*;

verus! {

/// Error surface of the store.
///
/// Tombstones are not errors: a deleted key reads back as `None`.
/// `Io` and `WalWrite` stand for operating-system failures that the
/// unverified shell maps onto this enum; the verified core itself never
/// produces them.  `ManifestCorrupted` and `CorruptedSst` carry the byte
/// offset at which a structural check failed.
#[derive(Debug, Clone, Copy, PartialEq, Eq, Structural)]
pub enum KeplerErr {
    IndexOutOfBounds,
    LockPoisoned,
    Io,
    WalWrite,
    ManifestCorrupted(usize),
    CorruptedSst(usize),
    Poisoned,
    Unrecoverable,
}

pub type KeplerResult<T> = Result<T, KeplerErr>;

} // verus!
