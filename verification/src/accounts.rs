use vstd::prelude::*;

verus! {

/// A uniquely addressed, balance-bearing asset record.
///
/// The decimal precision is fixed at 0: the asset is indivisible. The two
/// capability fields name who may increase the supply and who may freeze
/// holder records; either capability can be held by nobody.
#[derive(Clone, Copy, Debug, PartialEq, Eq, Structural)]
pub struct Asset {
    /// The address under which the ledger stores this asset.
    pub address: u64,
    /// Decimal precision; always 0 here (indivisible units).
    pub decimals: u8,
    /// Total number of units in existence.
    pub supply: u64,
    /// The identity allowed to mint new units, if any.
    pub mint_authority: Option<u64>,
    /// The identity allowed to freeze holder records, if any.
    pub freeze_authority: Option<u64>,
}

/// A per-recipient balance record, keyed by (asset, owner).
///
/// The owner is fixed at creation and never reassigned.
#[derive(Clone, Copy, Debug, PartialEq, Eq, Structural)]
pub struct HolderRecord {
    /// Address of the asset this record holds units of.
    pub asset: u64,
    /// The identity that owns the record.
    pub owner: u64,
    /// How many units the owner holds.
    pub balance: u64,
    /// Whether the record is blocked from balance changes.
    pub frozen: bool,
}

/// The descriptive record attached to an asset, keyed by asset address.
///
/// Created at most once per asset. It stays mutable and issuer-updatable by
/// design, so a broken content pointer can be corrected later.
#[derive(Debug, PartialEq, Eq)]
pub struct MetadataRecord {
    /// Address of the asset this record describes.
    pub asset: u64,
    /// Human-readable name of the credential.
    pub name: String,
    /// Short ticker-style symbol.
    pub symbol: String,
    /// Pointer to the off-ledger content document.
    pub content_uri: String,
    /// Opaque caller-supplied verifiable-credential hash; stored, never
    /// validated.
    pub vc_hash: String,
    /// The identity allowed to update this record.
    pub update_authority: u64,
    /// Whether the record may still be updated.
    pub mutable: bool,
}

/// A finished certificate: the supply is exactly one, nobody can mint more,
/// and the single unit sits in a frozen holder record of this asset.
pub open spec fn is_soulbound(asset: Asset, holder: HolderRecord) -> bool {
    &&& asset.supply == 1
    &&& asset.mint_authority is None
    &&& holder.asset == asset.address
    &&& holder.balance == 1
    &&& holder.frozen
}

} // verus!
