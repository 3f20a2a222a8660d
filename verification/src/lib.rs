//! Issuance of soulbound certificate assets on a modelled ledger.
//!
//! The crate models a programmable ledger holding fixed-precision assets,
//! per-recipient holder records and per-asset metadata records, and proves
//! the issuance sequence that turns a fresh asset into a non-transferable,
//! fixed-supply credential: create the asset, bind the recipient's holder
//! record, mint exactly one unit, attach the metadata, drop the mint
//! capability, and freeze the holder record. The whole sequence runs inside
//! one atomic unit: either every step applies or the ledger is unchanged.

pub mod accounts;
pub mod atomic;
pub mod errors;
pub mod issuance;
pub mod ledger;
pub mod model;
