use vstd::prelude::*;

verus! {

/// Errors reported by the ledger operations and by the issuance orchestrator.
///
/// Each operation's contract states exactly which variant comes back on
/// which inputs, so a caller can tell the failing step and its reason apart.
#[derive(Clone, Copy, Debug, PartialEq, Eq, Structural)]
pub enum LedgerError {
    /// A malformed or missing required account or identity reference.
    ValidationError,
    /// The target asset address is already occupied.
    AlreadyExists,
    /// The asset or metadata slot already exists at issuance start.
    AlreadyInitialized,
    /// The caller lacks the mint capability required for minting.
    AuthorityError,
    /// The asset's mint capability has already been dropped.
    MintAuthorityRevoked,
    /// The caller is not the authority the operation requires.
    Unauthorized,
    /// The holder record does not exist, or is empty where the ledger
    /// demands a balance before it will freeze the record.
    NoSuchAccount,
    /// The holder record is frozen and cannot take part in balance changes.
    AccountFrozen,
    /// The issuer cannot fund the new storage slots, or a balance is too
    /// small for the requested movement.
    InsufficientFunds,
    /// A trusted host module rejected a nested call; propagated verbatim.
    NestedCallFailure,
}

} // verus!
