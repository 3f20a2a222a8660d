use crate::accounts::{Asset, HolderRecord, MetadataRecord};
use crate::errors::LedgerError;
use vstd::prelude::*;

verus! {

/// The mathematical state of the ledger: the three account stores as
/// sequences of records. Exec code holds the same records in vectors; the
/// ledger's view is a value of this type, and every contract speaks of it.
#[verifier::ext_equal]
pub struct LedgerModel {
    pub assets: Seq<Asset>,
    pub holders: Seq<HolderRecord>,
    pub metadata: Seq<MetadataRecord>,
}

impl LedgerModel {
    /// The ledger with no accounts at all.
    pub open spec fn empty() -> LedgerModel {
        LedgerModel { assets: Seq::empty(), holders: Seq::empty(), metadata: Seq::empty() }
    }

    /// Some asset is stored under this address.
    pub open spec fn has_asset(self, address: u64) -> bool {
        exists|i: int| 0 <= i < self.assets.len() && self.assets[i].address == address
    }

    /// The position of the asset stored under this address; meaningful only
    /// when `has_asset` holds and the addresses are unique.
    pub open spec fn asset_index(self, address: u64) -> int {
        choose|i: int| 0 <= i < self.assets.len() && self.assets[i].address == address
    }

    /// The asset stored under this address; meaningful only when
    /// `has_asset` holds.
    pub open spec fn asset_of(self, address: u64) -> Asset {
        self.assets[self.asset_index(address)]
    }

    /// Some holder record is stored under this (asset, owner) pair.
    pub open spec fn has_holder(self, asset: u64, owner: u64) -> bool {
        exists|i: int|
            0 <= i < self.holders.len() && self.holders[i].asset == asset
                && self.holders[i].owner == owner
    }

    /// The position of the holder record for this (asset, owner) pair;
    /// meaningful only when `has_holder` holds and the pairs are unique.
    pub open spec fn holder_index(self, asset: u64, owner: u64) -> int {
        choose|i: int|
            0 <= i < self.holders.len() && self.holders[i].asset == asset
                && self.holders[i].owner == owner
    }

    /// The holder record for this (asset, owner) pair; meaningful only when
    /// `has_holder` holds.
    pub open spec fn holder_of(self, asset: u64, owner: u64) -> HolderRecord {
        self.holders[self.holder_index(asset, owner)]
    }

    /// Some metadata record is stored for this asset address.
    pub open spec fn has_metadata(self, asset: u64) -> bool {
        exists|i: int| 0 <= i < self.metadata.len() && self.metadata[i].asset == asset
    }

    /// The position of the metadata record for this asset; meaningful only
    /// when `has_metadata` holds and the keys are unique.
    pub open spec fn metadata_index(self, asset: u64) -> int {
        choose|i: int| 0 <= i < self.metadata.len() && self.metadata[i].asset == asset
    }

    /// The metadata record for this asset; meaningful only when
    /// `has_metadata` holds.
    pub open spec fn metadata_of(self, asset: u64) -> MetadataRecord {
        self.metadata[self.metadata_index(asset)]
    }

    /// Every asset sits under its own address.
    pub open spec fn unique_assets(self) -> bool {
        forall|i: int, j: int|
            0 <= i < j < self.assets.len() ==> self.assets[i].address != self.assets[j].address
    }

    /// At most one holder record per (asset, owner) pair.
    pub open spec fn unique_holders(self) -> bool {
        forall|i: int, j: int|
            0 <= i < j < self.holders.len() ==> !(self.holders[i].asset == self.holders[j].asset
                && self.holders[i].owner == self.holders[j].owner)
    }

    /// At most one metadata record per asset.
    pub open spec fn unique_metadata(self) -> bool {
        forall|i: int, j: int|
            0 <= i < j < self.metadata.len() ==> self.metadata[i].asset != self.metadata[j].asset
    }

    /// Every holder record belongs to a stored asset.
    pub open spec fn holders_linked(self) -> bool {
        forall|i: int|
            0 <= i < self.holders.len() ==> self.has_asset(#[trigger] self.holders[i].asset)
    }

    /// Every metadata record belongs to a stored asset.
    pub open spec fn metadata_linked(self) -> bool {
        forall|i: int|
            0 <= i < self.metadata.len() ==> self.has_asset(#[trigger] self.metadata[i].asset)
    }

    /// A frozen holder record holds at least one unit: the ledger refuses
    /// to freeze an empty record, and a frozen record's balance never
    /// changes afterwards.
    pub open spec fn frozen_backed(self) -> bool {
        forall|i: int|
            0 <= i < self.holders.len() && (#[trigger] self.holders[i]).frozen
                ==> self.holders[i].balance >= 1
    }

    /// A holder record with units in it belongs to an asset whose supply
    /// was already minted: units never precede supply.
    pub open spec fn balances_backed(self) -> bool {
        forall|i: int|
            0 <= i < self.holders.len() && (#[trigger] self.holders[i]).balance >= 1
                ==> self.asset_of(self.holders[i].asset).supply >= 1
    }

    /// Every asset is indivisible.
    pub open spec fn zero_decimals(self) -> bool {
        forall|i: int| 0 <= i < self.assets.len() ==> (#[trigger] self.assets[i]).decimals == 0
    }

    /// Well-formedness of the whole ledger state. Established by the empty
    /// ledger and preserved by every operation.
    pub open spec fn wf(self) -> bool {
        &&& self.unique_assets()
        &&& self.unique_holders()
        &&& self.unique_metadata()
        &&& self.holders_linked()
        &&& self.metadata_linked()
        &&& self.frozen_backed()
        &&& self.balances_backed()
        &&& self.zero_decimals()
    }
}

/// Creates a fresh indivisible asset under `address`, with both
/// capabilities held by `issuer` and nothing minted yet. Fails with
/// `AlreadyExists` when the address is already occupied.
pub open spec fn spec_create_asset(m: LedgerModel, address: u64, issuer: u64) -> Result<
    LedgerModel,
    LedgerError,
> {
    if m.has_asset(address) {
        Err(LedgerError::AlreadyExists)
    } else {
        Ok(
            LedgerModel {
                assets: m.assets.push(
                    Asset {
                        address,
                        decimals: 0,
                        supply: 0,
                        mint_authority: Some(issuer),
                        freeze_authority: Some(issuer),
                    },
                ),
                holders: m.holders,
                metadata: m.metadata,
            },
        )
    }
}

/// Creates the holder record for (asset, recipient) with zero balance, or
/// leaves the ledger unchanged when the record already exists: the creation
/// path is idempotent. Fails with `ValidationError` when the asset is not
/// stored.
pub open spec fn spec_bind_holder(m: LedgerModel, asset: u64, recipient: u64) -> Result<
    LedgerModel,
    LedgerError,
> {
    if !m.has_asset(asset) {
        Err(LedgerError::ValidationError)
    } else if m.has_holder(asset, recipient) {
        Ok(m)
    } else {
        Ok(
            LedgerModel {
                assets: m.assets,
                holders: m.holders.push(
                    HolderRecord { asset, owner: recipient, balance: 0, frozen: false },
                ),
                metadata: m.metadata,
            },
        )
    }
}

/// Mints exactly one unit of `asset` into the (asset, owner) holder record.
/// Fails with `ValidationError` when the asset is not stored,
/// `MintAuthorityRevoked` once the mint capability has been dropped,
/// `AuthorityError` when the caller does not hold it, `NoSuchAccount` when
/// the holder record is missing, `AccountFrozen` when the record is frozen,
/// and `NestedCallFailure` when the host token module rejects the mint for
/// supply or balance overflow.
pub open spec fn spec_mint_one(m: LedgerModel, asset: u64, owner: u64, caller: u64) -> Result<
    LedgerModel,
    LedgerError,
> {
    if !m.has_asset(asset) {
        Err(LedgerError::ValidationError)
    } else {
        let a = m.asset_of(asset);
        if a.mint_authority is None {
            Err(LedgerError::MintAuthorityRevoked)
        } else if a.mint_authority != Some(caller) {
            Err(LedgerError::AuthorityError)
        } else if !m.has_holder(asset, owner) {
            Err(LedgerError::NoSuchAccount)
        } else {
            let h = m.holder_of(asset, owner);
            if h.frozen {
                Err(LedgerError::AccountFrozen)
            } else if a.supply == u64::MAX || h.balance == u64::MAX {
                Err(LedgerError::NestedCallFailure)
            } else {
                Ok(
                    LedgerModel {
                        assets: m.assets.update(
                            m.asset_index(asset),
                            Asset {
                                address: a.address,
                                decimals: a.decimals,
                                supply: (a.supply + 1) as u64,
                                mint_authority: a.mint_authority,
                                freeze_authority: a.freeze_authority,
                            },
                        ),
                        holders: m.holders.update(
                            m.holder_index(asset, owner),
                            HolderRecord {
                                asset: h.asset,
                                owner: h.owner,
                                balance: (h.balance + 1) as u64,
                                frozen: h.frozen,
                            },
                        ),
                        metadata: m.metadata,
                    },
                )
            }
        }
    }
}

/// Attaches the descriptive record to `asset` exactly once, mutable and
/// updatable by the caller. Fails with `ValidationError` when the asset is
/// not stored, `AlreadyInitialized` when metadata already exists for it,
/// and `Unauthorized` when the caller does not hold the asset's mint
/// capability.
pub open spec fn spec_attach_metadata(
    m: LedgerModel,
    asset: u64,
    caller: u64,
    name: String,
    symbol: String,
    content_uri: String,
    vc_hash: String,
) -> Result<LedgerModel, LedgerError> {
    if !m.has_asset(asset) {
        Err(LedgerError::ValidationError)
    } else if m.has_metadata(asset) {
        Err(LedgerError::AlreadyInitialized)
    } else if m.asset_of(asset).mint_authority != Some(caller) {
        Err(LedgerError::Unauthorized)
    } else {
        Ok(
            LedgerModel {
                assets: m.assets,
                holders: m.holders,
                metadata: m.metadata.push(
                    MetadataRecord {
                        asset,
                        name,
                        symbol,
                        content_uri,
                        vc_hash,
                        update_authority: caller,
                        mutable: true,
                    },
                ),
            },
        )
    }
}

/// Drops the mint capability of `asset` for good; no operation ever
/// reinstates it. Dropping an already absent capability is a no-op. Fails
/// with `ValidationError` when the asset is not stored and `Unauthorized`
/// when the caller does not hold the capability.
pub open spec fn spec_revoke_mint_authority(m: LedgerModel, asset: u64, caller: u64) -> Result<
    LedgerModel,
    LedgerError,
> {
    if !m.has_asset(asset) {
        Err(LedgerError::ValidationError)
    } else {
        let a = m.asset_of(asset);
        if a.mint_authority is None {
            Ok(m)
        } else if a.mint_authority != Some(caller) {
            Err(LedgerError::Unauthorized)
        } else {
            Ok(
                LedgerModel {
                    assets: m.assets.update(
                        m.asset_index(asset),
                        Asset {
                            address: a.address,
                            decimals: a.decimals,
                            supply: a.supply,
                            mint_authority: None,
                            freeze_authority: a.freeze_authority,
                        },
                    ),
                    holders: m.holders,
                    metadata: m.metadata,
                },
            )
        }
    }
}

/// Reaffirms the freeze capability to the caller and freezes the
/// (asset, owner) holder record. Fails with `ValidationError` when the
/// asset is not stored, `Unauthorized` when the caller does not hold the
/// freeze capability, `NoSuchAccount` when the holder record is missing or
/// empty (the ledger refuses to freeze an empty record), and
/// `AccountFrozen` when the record is already frozen.
pub open spec fn spec_reassign_freeze_and_freeze(
    m: LedgerModel,
    asset: u64,
    owner: u64,
    caller: u64,
) -> Result<LedgerModel, LedgerError> {
    if !m.has_asset(asset) {
        Err(LedgerError::ValidationError)
    } else {
        let a = m.asset_of(asset);
        if a.freeze_authority != Some(caller) {
            Err(LedgerError::Unauthorized)
        } else if !m.has_holder(asset, owner) {
            Err(LedgerError::NoSuchAccount)
        } else {
            let h = m.holder_of(asset, owner);
            if h.balance == 0 {
                Err(LedgerError::NoSuchAccount)
            } else if h.frozen {
                Err(LedgerError::AccountFrozen)
            } else {
                Ok(
                    LedgerModel {
                        assets: m.assets.update(
                            m.asset_index(asset),
                            Asset {
                                address: a.address,
                                decimals: a.decimals,
                                supply: a.supply,
                                mint_authority: a.mint_authority,
                                freeze_authority: Some(caller),
                            },
                        ),
                        holders: m.holders.update(
                            m.holder_index(asset, owner),
                            HolderRecord {
                                asset: h.asset,
                                owner: h.owner,
                                balance: h.balance,
                                frozen: true,
                            },
                        ),
                        metadata: m.metadata,
                    },
                )
            }
        }
    }
}

/// Moves one unit of `asset` from the `from` holder record to the `to`
/// holder record, authorized by the source owner. Fails with
/// `ValidationError` when the asset is not stored, `Unauthorized` when the
/// caller is not the source owner, `NoSuchAccount` when either record is
/// missing, `AccountFrozen` when either record is frozen,
/// `InsufficientFunds` when the source is empty, and `NestedCallFailure`
/// when the host token module rejects the move for balance overflow.
pub open spec fn spec_transfer_one(
    m: LedgerModel,
    asset: u64,
    from: u64,
    to: u64,
    caller: u64,
) -> Result<LedgerModel, LedgerError> {
    if !m.has_asset(asset) {
        Err(LedgerError::ValidationError)
    } else if caller != from {
        Err(LedgerError::Unauthorized)
    } else if !m.has_holder(asset, from) {
        Err(LedgerError::NoSuchAccount)
    } else if m.holder_of(asset, from).frozen {
        Err(LedgerError::AccountFrozen)
    } else if m.holder_of(asset, from).balance == 0 {
        Err(LedgerError::InsufficientFunds)
    } else if !m.has_holder(asset, to) {
        Err(LedgerError::NoSuchAccount)
    } else if m.holder_of(asset, to).frozen {
        Err(LedgerError::AccountFrozen)
    } else if from == to {
        Ok(m)
    } else if m.holder_of(asset, to).balance == u64::MAX {
        Err(LedgerError::NestedCallFailure)
    } else {
        let hf = m.holder_of(asset, from);
        let ht = m.holder_of(asset, to);
        Ok(
            LedgerModel {
                assets: m.assets,
                holders: m.holders.update(
                    m.holder_index(asset, from),
                    HolderRecord {
                        asset: hf.asset,
                        owner: hf.owner,
                        balance: (hf.balance - 1) as u64,
                        frozen: hf.frozen,
                    },
                ).update(
                    m.holder_index(asset, to),
                    HolderRecord {
                        asset: ht.asset,
                        owner: ht.owner,
                        balance: (ht.balance + 1) as u64,
                        frozen: ht.frozen,
                    },
                ),
                metadata: m.metadata,
            },
        )
    }
}

/// A position holding the searched address is the position the lookup
/// functions denote, as long as addresses are unique.
pub proof fn lemma_asset_resolve(m: LedgerModel, address: u64, i: int)
    requires
        m.unique_assets(),
        0 <= i < m.assets.len(),
        m.assets[i].address == address,
    ensures
        m.has_asset(address),
        m.asset_index(address) == i,
        m.asset_of(address) == m.assets[i],
{
    assert(m.has_asset(address));
    let j = m.asset_index(address);
    assert(0 <= j < m.assets.len() && m.assets[j].address == address);
    if i < j {
        assert(m.assets[i].address != m.assets[j].address);
    }
    if j < i {
        assert(m.assets[j].address != m.assets[i].address);
    }
}

/// A position holding the searched (asset, owner) pair is the position the
/// lookup functions denote, as long as pairs are unique.
pub proof fn lemma_holder_resolve(m: LedgerModel, asset: u64, owner: u64, i: int)
    requires
        m.unique_holders(),
        0 <= i < m.holders.len(),
        m.holders[i].asset == asset,
        m.holders[i].owner == owner,
    ensures
        m.has_holder(asset, owner),
        m.holder_index(asset, owner) == i,
        m.holder_of(asset, owner) == m.holders[i],
{
    assert(m.has_holder(asset, owner));
    let j = m.holder_index(asset, owner);
    assert(0 <= j < m.holders.len() && m.holders[j].asset == asset && m.holders[j].owner == owner);
    if i < j {
        assert(!(m.holders[i].asset == m.holders[j].asset && m.holders[i].owner
            == m.holders[j].owner));
    }
    if j < i {
        assert(!(m.holders[j].asset == m.holders[i].asset && m.holders[j].owner
            == m.holders[i].owner));
    }
}

/// A position holding the searched asset key is the position the lookup
/// functions denote, as long as metadata keys are unique.
pub proof fn lemma_metadata_resolve(m: LedgerModel, asset: u64, i: int)
    requires
        m.unique_metadata(),
        0 <= i < m.metadata.len(),
        m.metadata[i].asset == asset,
    ensures
        m.has_metadata(asset),
        m.metadata_index(asset) == i,
        m.metadata_of(asset) == m.metadata[i],
{
    assert(m.has_metadata(asset));
    let j = m.metadata_index(asset);
    assert(0 <= j < m.metadata.len() && m.metadata[j].asset == asset);
    if i < j {
        assert(m.metadata[i].asset != m.metadata[j].asset);
    }
    if j < i {
        assert(m.metadata[j].asset != m.metadata[i].asset);
    }
}

/// Order invariant on states: in every well-formed ledger state, a frozen
/// holder record implies its asset exists and its supply was already
/// minted. A freeze is therefore never observable before the mint.
pub proof fn lemma_frozen_implies_minted(m: LedgerModel, asset: u64, owner: u64)
    requires
        m.wf(),
        m.has_holder(asset, owner),
        m.holder_of(asset, owner).frozen,
    ensures
        m.has_asset(asset),
        m.asset_of(asset).supply >= 1,
        m.holder_of(asset, owner).balance >= 1,
{
    let k = m.holder_index(asset, owner);
    assert(0 <= k < m.holders.len() && m.holders[k].asset == asset && m.holders[k].owner == owner);
    assert(m.holders[k].frozen);
    assert(m.holders[k].balance >= 1);
    assert(m.has_asset(asset));
    assert(m.asset_of(asset).supply >= 1);
}

/// Order invariant on transitions: the freeze step can only succeed on a
/// state where the asset's supply is already at least one — freezing never
/// precedes minting, in successful and in failed traces alike.
pub proof fn lemma_freeze_never_precedes_mint(m: LedgerModel, asset: u64, owner: u64, caller: u64)
    requires
        m.wf(),
        spec_reassign_freeze_and_freeze(m, asset, owner, caller) is Ok,
    ensures
        m.has_asset(asset),
        m.has_holder(asset, owner),
        m.holder_of(asset, owner).balance >= 1,
        m.asset_of(asset).supply >= 1,
{
    let k = m.holder_index(asset, owner);
    assert(0 <= k < m.holders.len() && m.holders[k].asset == asset && m.holders[k].owner == owner);
    assert(m.holders[k].balance >= 1);
    assert(m.asset_of(asset).supply >= 1);
}

/// Two states with the same asset store agree on every asset lookup.
pub proof fn lemma_same_assets(m: LedgerModel, m2: LedgerModel)
    requires
        m.unique_assets(),
        m2.assets == m.assets,
    ensures
        m2.unique_assets(),
        forall|x: u64| m2.has_asset(x) == m.has_asset(x),
        forall|x: u64|
            m.has_asset(x) ==> m2.asset_index(x) == m.asset_index(x) && m2.asset_of(x)
                == m.asset_of(x),
        m.zero_decimals() ==> m2.zero_decimals(),
{
    assert forall|i: int, j: int| 0 <= i < j < m2.assets.len() implies m2.assets[i].address
        != m2.assets[j].address by {
        assert(m2.assets[i] == m.assets[i] && m2.assets[j] == m.assets[j]);
    }
    assert forall|x: u64| m2.has_asset(x) == m.has_asset(x) by {
        if m.has_asset(x) {
            let i = m.asset_index(x);
            assert(0 <= i < m.assets.len() && m.assets[i].address == x);
            assert(m2.assets[i] == m.assets[i]);
            assert(m2.has_asset(x));
        }
        if m2.has_asset(x) {
            let i = m2.asset_index(x);
            assert(0 <= i < m2.assets.len() && m2.assets[i].address == x);
            assert(m.assets[i] == m2.assets[i]);
            assert(m.has_asset(x));
        }
    }
    assert forall|x: u64| m.has_asset(x) implies m2.asset_index(x) == m.asset_index(x)
        && m2.asset_of(x) == m.asset_of(x) by {
        let i = m.asset_index(x);
        assert(0 <= i < m.assets.len() && m.assets[i].address == x);
        assert(m2.assets[i] == m.assets[i]);
        lemma_asset_resolve(m2, x, i);
    }
    if m.zero_decimals() {
        assert forall|i: int| 0 <= i < m2.assets.len() implies (#[trigger] m2.assets[i]).decimals
            == 0 by {
            assert(m2.assets[i] == m.assets[i]);
        }
    }
}

/// Two states with the same holder store agree on every holder lookup.
pub proof fn lemma_same_holders(m: LedgerModel, m2: LedgerModel)
    requires
        m.unique_holders(),
        m2.holders == m.holders,
    ensures
        m2.unique_holders(),
        forall|x: u64, o: u64| m2.has_holder(x, o) == m.has_holder(x, o),
        forall|x: u64, o: u64|
            m.has_holder(x, o) ==> m2.holder_index(x, o) == m.holder_index(x, o) && m2.holder_of(
                x,
                o,
            ) == m.holder_of(x, o),
        m.frozen_backed() ==> m2.frozen_backed(),
{
    assert forall|i: int, j: int| 0 <= i < j < m2.holders.len() implies !(m2.holders[i].asset
        == m2.holders[j].asset && m2.holders[i].owner == m2.holders[j].owner) by {
        assert(m2.holders[i] == m.holders[i] && m2.holders[j] == m.holders[j]);
    }
    assert forall|x: u64, o: u64| m2.has_holder(x, o) == m.has_holder(x, o) by {
        if m.has_holder(x, o) {
            let i = m.holder_index(x, o);
            assert(0 <= i < m.holders.len() && m.holders[i].asset == x && m.holders[i].owner == o);
            assert(m2.holders[i] == m.holders[i]);
            assert(m2.has_holder(x, o));
        }
        if m2.has_holder(x, o) {
            let i = m2.holder_index(x, o);
            assert(0 <= i < m2.holders.len() && m2.holders[i].asset == x && m2.holders[i].owner
                == o);
            assert(m.holders[i] == m2.holders[i]);
            assert(m.has_holder(x, o));
        }
    }
    assert forall|x: u64, o: u64| m.has_holder(x, o) implies m2.holder_index(x, o)
        == m.holder_index(x, o) && m2.holder_of(x, o) == m.holder_of(x, o) by {
        let i = m.holder_index(x, o);
        assert(0 <= i < m.holders.len() && m.holders[i].asset == x && m.holders[i].owner == o);
        assert(m2.holders[i] == m.holders[i]);
        lemma_holder_resolve(m2, x, o, i);
    }
    if m.frozen_backed() {
        assert forall|i: int|
            0 <= i < m2.holders.len() && (#[trigger] m2.holders[i]).frozen implies
            m2.holders[i].balance >= 1 by {
            assert(m2.holders[i] == m.holders[i]);
        }
    }
}

/// Two states with the same metadata store agree on every metadata lookup.
pub proof fn lemma_same_metadata(m: LedgerModel, m2: LedgerModel)
    requires
        m.unique_metadata(),
        m2.metadata == m.metadata,
    ensures
        m2.unique_metadata(),
        forall|x: u64| m2.has_metadata(x) == m.has_metadata(x),
        forall|x: u64|
            m.has_metadata(x) ==> m2.metadata_index(x) == m.metadata_index(x) && m2.metadata_of(x)
                == m.metadata_of(x),
{
    assert forall|i: int, j: int| 0 <= i < j < m2.metadata.len() implies m2.metadata[i].asset
        != m2.metadata[j].asset by {
        assert(m2.metadata[i] == m.metadata[i] && m2.metadata[j] == m.metadata[j]);
    }
    assert forall|x: u64| m2.has_metadata(x) == m.has_metadata(x) by {
        if m.has_metadata(x) {
            let i = m.metadata_index(x);
            assert(0 <= i < m.metadata.len() && m.metadata[i].asset == x);
            assert(m2.metadata[i] == m.metadata[i]);
            assert(m2.has_metadata(x));
        }
        if m2.has_metadata(x) {
            let i = m2.metadata_index(x);
            assert(0 <= i < m2.metadata.len() && m2.metadata[i].asset == x);
            assert(m.metadata[i] == m2.metadata[i]);
            assert(m.has_metadata(x));
        }
    }
    assert forall|x: u64| m.has_metadata(x) implies m2.metadata_index(x) == m.metadata_index(x)
        && m2.metadata_of(x) == m.metadata_of(x) by {
        let i = m.metadata_index(x);
        assert(0 <= i < m.metadata.len() && m.metadata[i].asset == x);
        assert(m2.metadata[i] == m.metadata[i]);
        lemma_metadata_resolve(m2, x, i);
    }
}

/// Appending an asset under a fresh address keeps the addresses unique and
/// changes no lookup under any other address.
pub proof fn lemma_asset_push(m: LedgerModel, m2: LedgerModel, a: Asset)
    requires
        m.unique_assets(),
        !m.has_asset(a.address),
        m2.assets == m.assets.push(a),
    ensures
        m2.unique_assets(),
        m2.has_asset(a.address),
        m2.asset_index(a.address) == m.assets.len(),
        m2.asset_of(a.address) == a,
        forall|x: u64| x != a.address ==> m2.has_asset(x) == m.has_asset(x),
        forall|x: u64|
            x != a.address && m.has_asset(x) ==> m2.asset_index(x) == m.asset_index(x)
                && m2.asset_of(x) == m.asset_of(x),
{
    assert forall|i: int, j: int| 0 <= i < j < m2.assets.len() implies m2.assets[i].address
        != m2.assets[j].address by {
        if j < m.assets.len() {
            assert(m2.assets[i] == m.assets[i] && m2.assets[j] == m.assets[j]);
        } else {
            assert(m2.assets[j] == a);
            assert(m2.assets[i] == m.assets[i]);
            if m.assets[i].address == a.address {
                assert(m.has_asset(a.address));
            }
        }
    }
    assert(m2.assets[m.assets.len() as int] == a);
    lemma_asset_resolve(m2, a.address, m.assets.len() as int);
    assert forall|x: u64| x != a.address implies m2.has_asset(x) == m.has_asset(x) by {
        if m.has_asset(x) {
            let i = m.asset_index(x);
            assert(0 <= i < m.assets.len() && m.assets[i].address == x);
            assert(m2.assets[i] == m.assets[i]);
            assert(m2.has_asset(x));
        }
        if m2.has_asset(x) {
            let j = m2.asset_index(x);
            assert(0 <= j < m2.assets.len() && m2.assets[j].address == x);
            assert(j < m.assets.len());
            assert(m.assets[j] == m2.assets[j]);
            assert(m.has_asset(x));
        }
    }
    assert forall|x: u64| x != a.address && m.has_asset(x) implies m2.asset_index(x)
        == m.asset_index(x) && m2.asset_of(x) == m.asset_of(x) by {
        let i = m.asset_index(x);
        assert(0 <= i < m.assets.len() && m.assets[i].address == x);
        assert(m2.assets[i] == m.assets[i]);
        lemma_asset_resolve(m2, x, i);
    }
}

/// Replacing the asset at a position with one under the same address keeps
/// the addresses unique, stores the replacement under that address, and
/// changes no lookup under any other address.
pub proof fn lemma_asset_update(m: LedgerModel, m2: LedgerModel, i: int, a: Asset)
    requires
        m.unique_assets(),
        0 <= i < m.assets.len(),
        a.address == m.assets[i].address,
        m2.assets == m.assets.update(i, a),
    ensures
        m2.unique_assets(),
        forall|x: u64| m2.has_asset(x) == m.has_asset(x),
        m2.has_asset(a.address),
        m2.asset_index(a.address) == i,
        m2.asset_of(a.address) == a,
        forall|x: u64|
            x != a.address && m.has_asset(x) ==> m2.asset_index(x) == m.asset_index(x)
                && m2.asset_of(x) == m.asset_of(x),
{
    assert(m2.assets.len() == m.assets.len());
    assert forall|p: int, q: int| 0 <= p < q < m2.assets.len() implies m2.assets[p].address
        != m2.assets[q].address by {
        assert(m2.assets[p].address == m.assets[p].address);
        assert(m2.assets[q].address == m.assets[q].address);
    }
    assert(m2.assets[i] == a);
    lemma_asset_resolve(m2, a.address, i);
    lemma_asset_resolve(m, a.address, i);
    assert forall|x: u64| x != a.address implies m2.has_asset(x) == m.has_asset(x) by {
        if m.has_asset(x) {
            let p = m.asset_index(x);
            assert(0 <= p < m.assets.len() && m.assets[p].address == x);
            assert(p != i);
            assert(m2.assets[p] == m.assets[p]);
            assert(m2.has_asset(x));
        }
        if m2.has_asset(x) {
            let q = m2.asset_index(x);
            assert(0 <= q < m2.assets.len() && m2.assets[q].address == x);
            assert(q != i);
            assert(m.assets[q] == m2.assets[q]);
            assert(m.has_asset(x));
        }
    }
    assert forall|x: u64| x != a.address && m.has_asset(x) implies m2.asset_index(x)
        == m.asset_index(x) && m2.asset_of(x) == m.asset_of(x) by {
        let p = m.asset_index(x);
        assert(0 <= p < m.assets.len() && m.assets[p].address == x);
        assert(p != i);
        assert(m2.assets[p] == m.assets[p]);
        lemma_asset_resolve(m2, x, p);
    }
}

/// Appending a holder record under a fresh (asset, owner) pair keeps the
/// pairs unique and changes no lookup under any other pair.
pub proof fn lemma_holder_push(m: LedgerModel, m2: LedgerModel, h: HolderRecord)
    requires
        m.unique_holders(),
        !m.has_holder(h.asset, h.owner),
        m2.holders == m.holders.push(h),
    ensures
        m2.unique_holders(),
        m2.has_holder(h.asset, h.owner),
        m2.holder_index(h.asset, h.owner) == m.holders.len(),
        m2.holder_of(h.asset, h.owner) == h,
        forall|x: u64, o: u64|
            !(x == h.asset && o == h.owner) ==> m2.has_holder(x, o) == m.has_holder(x, o),
        forall|x: u64, o: u64|
            !(x == h.asset && o == h.owner) && m.has_holder(x, o) ==> m2.holder_index(x, o)
                == m.holder_index(x, o) && m2.holder_of(x, o) == m.holder_of(x, o),
{
    assert forall|i: int, j: int| 0 <= i < j < m2.holders.len() implies !(m2.holders[i].asset
        == m2.holders[j].asset && m2.holders[i].owner == m2.holders[j].owner) by {
        if j < m.holders.len() {
            assert(m2.holders[i] == m.holders[i] && m2.holders[j] == m.holders[j]);
        } else {
            assert(m2.holders[j] == h);
            assert(m2.holders[i] == m.holders[i]);
            if m.holders[i].asset == h.asset && m.holders[i].owner == h.owner {
                assert(m.has_holder(h.asset, h.owner));
            }
        }
    }
    assert(m2.holders[m.holders.len() as int] == h);
    lemma_holder_resolve(m2, h.asset, h.owner, m.holders.len() as int);
    assert forall|x: u64, o: u64| !(x == h.asset && o == h.owner) implies m2.has_holder(x, o)
        == m.has_holder(x, o) by {
        if m.has_holder(x, o) {
            let i = m.holder_index(x, o);
            assert(0 <= i < m.holders.len() && m.holders[i].asset == x && m.holders[i].owner == o);
            assert(m2.holders[i] == m.holders[i]);
            assert(m2.has_holder(x, o));
        }
        if m2.has_holder(x, o) {
            let j = m2.holder_index(x, o);
            assert(0 <= j < m2.holders.len() && m2.holders[j].asset == x && m2.holders[j].owner
                == o);
            assert(j < m.holders.len());
            assert(m.holders[j] == m2.holders[j]);
            assert(m.has_holder(x, o));
        }
    }
    assert forall|x: u64, o: u64| !(x == h.asset && o == h.owner) && m.has_holder(x, o) implies
        m2.holder_index(x, o) == m.holder_index(x, o) && m2.holder_of(x, o) == m.holder_of(
        x,
        o,
    ) by {
        let i = m.holder_index(x, o);
        assert(0 <= i < m.holders.len() && m.holders[i].asset == x && m.holders[i].owner == o);
        assert(m2.holders[i] == m.holders[i]);
        lemma_holder_resolve(m2, x, o, i);
    }
}

/// Replacing the holder record at a position with one under the same pair
/// keeps the pairs unique, stores the replacement under that pair, and
/// changes no lookup under any other pair.
pub proof fn lemma_holder_update(m: LedgerModel, m2: LedgerModel, i: int, h: HolderRecord)
    requires
        m.unique_holders(),
        0 <= i < m.holders.len(),
        h.asset == m.holders[i].asset,
        h.owner == m.holders[i].owner,
        m2.holders == m.holders.update(i, h),
    ensures
        m2.unique_holders(),
        forall|x: u64, o: u64| m2.has_holder(x, o) == m.has_holder(x, o),
        m2.has_holder(h.asset, h.owner),
        m2.holder_index(h.asset, h.owner) == i,
        m2.holder_of(h.asset, h.owner) == h,
        forall|x: u64, o: u64|
            !(x == h.asset && o == h.owner) && m.has_holder(x, o) ==> m2.holder_index(x, o)
                == m.holder_index(x, o) && m2.holder_of(x, o) == m.holder_of(x, o),
{
    assert(m2.holders.len() == m.holders.len());
    assert forall|p: int, q: int| 0 <= p < q < m2.holders.len() implies !(m2.holders[p].asset
        == m2.holders[q].asset && m2.holders[p].owner == m2.holders[q].owner) by {
        assert(m2.holders[p].asset == m.holders[p].asset && m2.holders[p].owner
            == m.holders[p].owner);
        assert(m2.holders[q].asset == m.holders[q].asset && m2.holders[q].owner
            == m.holders[q].owner);
    }
    assert(m2.holders[i] == h);
    lemma_holder_resolve(m2, h.asset, h.owner, i);
    lemma_holder_resolve(m, h.asset, h.owner, i);
    assert forall|x: u64, o: u64| !(x == h.asset && o == h.owner) implies m2.has_holder(x, o)
        == m.has_holder(x, o) by {
        if m.has_holder(x, o) {
            let p = m.holder_index(x, o);
            assert(0 <= p < m.holders.len() && m.holders[p].asset == x && m.holders[p].owner == o);
            assert(p != i);
            assert(m2.holders[p] == m.holders[p]);
            assert(m2.has_holder(x, o));
        }
        if m2.has_holder(x, o) {
            let q = m2.holder_index(x, o);
            assert(0 <= q < m2.holders.len() && m2.holders[q].asset == x && m2.holders[q].owner
                == o);
            assert(q != i);
            assert(m.holders[q] == m2.holders[q]);
            assert(m.has_holder(x, o));
        }
    }
    assert forall|x: u64, o: u64| !(x == h.asset && o == h.owner) && m.has_holder(x, o) implies
        m2.holder_index(x, o) == m.holder_index(x, o) && m2.holder_of(x, o) == m.holder_of(
        x,
        o,
    ) by {
        let p = m.holder_index(x, o);
        assert(0 <= p < m.holders.len() && m.holders[p].asset == x && m.holders[p].owner == o);
        assert(p != i);
        assert(m2.holders[p] == m.holders[p]);
        lemma_holder_resolve(m2, x, o, p);
    }
}

/// Appending a metadata record under a fresh asset key keeps the keys
/// unique and changes no lookup under any other key.
pub proof fn lemma_metadata_push(m: LedgerModel, m2: LedgerModel, r: MetadataRecord)
    requires
        m.unique_metadata(),
        !m.has_metadata(r.asset),
        m2.metadata == m.metadata.push(r),
    ensures
        m2.unique_metadata(),
        m2.has_metadata(r.asset),
        m2.metadata_index(r.asset) == m.metadata.len(),
        m2.metadata_of(r.asset) == r,
        forall|x: u64| x != r.asset ==> m2.has_metadata(x) == m.has_metadata(x),
        forall|x: u64|
            x != r.asset && m.has_metadata(x) ==> m2.metadata_index(x) == m.metadata_index(x)
                && m2.metadata_of(x) == m.metadata_of(x),
{
    assert forall|i: int, j: int| 0 <= i < j < m2.metadata.len() implies m2.metadata[i].asset
        != m2.metadata[j].asset by {
        if j < m.metadata.len() {
            assert(m2.metadata[i] == m.metadata[i] && m2.metadata[j] == m.metadata[j]);
        } else {
            assert(m2.metadata[j] == r);
            assert(m2.metadata[i] == m.metadata[i]);
            if m.metadata[i].asset == r.asset {
                assert(m.has_metadata(r.asset));
            }
        }
    }
    assert(m2.metadata[m.metadata.len() as int] == r);
    lemma_metadata_resolve(m2, r.asset, m.metadata.len() as int);
    assert forall|x: u64| x != r.asset implies m2.has_metadata(x) == m.has_metadata(x) by {
        if m.has_metadata(x) {
            let i = m.metadata_index(x);
            assert(0 <= i < m.metadata.len() && m.metadata[i].asset == x);
            assert(m2.metadata[i] == m.metadata[i]);
            assert(m2.has_metadata(x));
        }
        if m2.has_metadata(x) {
            let j = m2.metadata_index(x);
            assert(0 <= j < m2.metadata.len() && m2.metadata[j].asset == x);
            assert(j < m.metadata.len());
            assert(m.metadata[j] == m2.metadata[j]);
            assert(m.has_metadata(x));
        }
    }
    assert forall|x: u64| x != r.asset && m.has_metadata(x) implies m2.metadata_index(x)
        == m.metadata_index(x) && m2.metadata_of(x) == m.metadata_of(x) by {
        let i = m.metadata_index(x);
        assert(0 <= i < m.metadata.len() && m.metadata[i].asset == x);
        assert(m2.metadata[i] == m.metadata[i]);
        lemma_metadata_resolve(m2, x, i);
    }
}

} // verus!
