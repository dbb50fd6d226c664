use vstd::prelude::*;

verus! {

/// Errors surfaced by the output manager and its store.
#[derive(Clone, Copy, Debug, PartialEq, Eq, Structural)]
pub enum OutputManagerError {
    /// A failure inside the store; the state is left as it was before the call.
    StorageError,
    /// An output with the same commitment is already known to the store.
    DuplicateOutput,
    /// An output that was to be encumbered or invalidated is not held as unspent.
    MissingOutput,
    /// The transaction id is already pending, or the new outputs collide.
    ConflictingEncumberance,
    /// No pending transaction record exists for the given transaction id.
    UnknownTransaction,
    /// Selection exhausted the unspent outputs without covering amount + fee.
    NotEnoughFunds,
    /// The transaction assembler rejected the draft.
    BuildError,
    /// A confirmation did not match the stored pending record.
    IncompleteTransaction,
    /// A base-node sync was requested before a base node public key was set.
    NoBaseNodeKeysProvided,
    /// A malformed output or key could not be converted.
    ConversionError,
    /// Key derivation failed.
    KeyManagerError,
}

} // verus!
