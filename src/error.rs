use vstd::prelude::*;

verus! {

/// Everything that stops a codec session. None of them is recoverable: the
/// differential state makes any skipped line corrupt what follows.
#[derive(Debug, Clone, Copy, PartialEq, Eq, Structural)]
pub enum CodecError {
    /// A re-initialization asked for an order above the session maximum.
    InvalidOrder,
    /// A differenced value arrived before its field was ever seeded.
    UninitializedKernel,
    /// The recovered epoch description has no readable flag or count.
    MalformedEpochHeader,
    /// An epoch line starts with the marker of the other CRINEX version.
    EpochMarkerMismatch,
    /// A clock or observation token is not an integer.
    MalformedRecord,
    /// No observation-code list is declared for a satellite's system.
    UnknownConstellation,
    /// The header block could not be read.
    MalformedHeader,
    /// The header does not describe observation data.
    UnsupportedRecordType,
    /// The header carries no CRINEX version.
    NotCompactRinex,
    /// The stream ended in the middle of an epoch.
    TruncatedStream,
    /// Exact integration left the 64-bit range.
    NumericOverflow,
}

} // verus!
