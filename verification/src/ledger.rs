use crate::accounts::{Asset, HolderRecord, MetadataRecord};
use crate::errors::LedgerError;
use crate::model::{
    lemma_asset_push, lemma_asset_resolve, lemma_asset_update, lemma_holder_push,
    lemma_holder_resolve, lemma_holder_update, lemma_metadata_push, lemma_metadata_resolve,
    lemma_same_assets, lemma_same_holders, lemma_same_metadata, spec_attach_metadata,
    spec_bind_holder, spec_create_asset, spec_mint_one, spec_reassign_freeze_and_freeze,
    spec_revoke_mint_authority, spec_transfer_one, LedgerModel,
};
use vstd::prelude::*;

verus! {

/// The concrete account store: assets, holder records and metadata records,
/// each in a vector. Its view is the `LedgerModel` every contract speaks
/// of; `LedgerModel::wf` is the store's invariant.
pub struct Ledger {
    pub assets: Vec<Asset>,
    pub holders: Vec<HolderRecord>,
    pub metadata: Vec<MetadataRecord>,
}

impl View for Ledger {
    type V = LedgerModel;

    open spec fn view(&self) -> LedgerModel {
        LedgerModel { assets: self.assets@, holders: self.holders@, metadata: self.metadata@ }
    }
}

/// A field-for-field copy of a metadata record.
fn copy_metadata_record(r: &MetadataRecord) -> (c: MetadataRecord)
    ensures
        c == *r,
{
    MetadataRecord {
        asset: r.asset,
        name: r.name.clone(),
        symbol: r.symbol.clone(),
        content_uri: r.content_uri.clone(),
        vc_hash: r.vc_hash.clone(),
        update_authority: r.update_authority,
        mutable: r.mutable,
    }
}

/// Position of the asset stored under `address`, if any.
fn find_asset(assets: &Vec<Asset>, address: u64) -> (r: Option<usize>)
    ensures
        match r {
            Some(i) => i < assets@.len() && assets@[i as int].address == address,
            None => forall|i: int| 0 <= i < assets@.len() ==> assets@[i].address != address,
        },
{
    let mut i: usize = 0;
    while i < assets.len()
        invariant
            i <= assets@.len(),
            forall|j: int| 0 <= j < i ==> assets@[j].address != address,
        decreases assets@.len() - i,
    {
        if assets[i].address == address {
            return Some(i);
        }
        i = i + 1;
    }
    None
}

/// Position of the holder record stored under (asset, owner), if any.
fn find_holder(holders: &Vec<HolderRecord>, asset: u64, owner: u64) -> (r: Option<usize>)
    ensures
        match r {
            Some(i) => i < holders@.len() && holders@[i as int].asset == asset
                && holders@[i as int].owner == owner,
            None => forall|i: int|
                0 <= i < holders@.len() ==> !(holders@[i].asset == asset && holders@[i].owner
                    == owner),
        },
{
    let mut i: usize = 0;
    while i < holders.len()
        invariant
            i <= holders@.len(),
            forall|j: int|
                0 <= j < i ==> !(holders@[j].asset == asset && holders@[j].owner == owner),
        decreases holders@.len() - i,
    {
        if holders[i].asset == asset && holders[i].owner == owner {
            return Some(i);
        }
        i = i + 1;
    }
    None
}

/// Position of the metadata record stored for `asset`, if any.
fn find_metadata(metadata: &Vec<MetadataRecord>, asset: u64) -> (r: Option<usize>)
    ensures
        match r {
            Some(i) => i < metadata@.len() && metadata@[i as int].asset == asset,
            None => forall|i: int| 0 <= i < metadata@.len() ==> metadata@[i].asset != asset,
        },
{
    let mut i: usize = 0;
    while i < metadata.len()
        invariant
            i <= metadata@.len(),
            forall|j: int| 0 <= j < i ==> metadata@[j].asset != asset,
        decreases metadata@.len() - i,
    {
        if metadata[i].asset == asset {
            return Some(i);
        }
        i = i + 1;
    }
    None
}

impl Ledger {
    /// An empty, well-formed ledger.
    pub fn new() -> (ledger: Ledger)
        ensures
            ledger@ == LedgerModel::empty(),
            ledger@.wf(),
    {
        let ledger = Ledger { assets: Vec::new(), holders: Vec::new(), metadata: Vec::new() };
        proof {
            assert(ledger@.assets =~= LedgerModel::empty().assets);
            assert(ledger@.holders =~= LedgerModel::empty().holders);
            assert(ledger@.metadata =~= LedgerModel::empty().metadata);
        }
        ledger
    }

    /// Asset Registry: creates a fresh indivisible asset under `address`,
    /// with both capabilities held by `issuer` and nothing minted yet.
    /// Exactly `spec_create_asset` happens; on failure nothing changes.
    pub fn create_asset(&mut self, address: u64, issuer: u64) -> (result: Result<(), LedgerError>)
        requires
            old(self)@.wf(),
        ensures
            final(self)@.wf(),
            ({
                match spec_create_asset(old(self)@, address, issuer) {
                    Ok(m) => result is Ok && final(self)@ == m,
                    Err(e) => result == Err::<(), LedgerError>(e) && final(self)@ == old(self)@,
                }
            }),
    {
        match find_asset(&self.assets, address) {
            Some(i) => {
                proof {
                    lemma_asset_resolve(self@, address, i as int);
                }
                Err(LedgerError::AlreadyExists)
            },
            None => {
                let a = Asset {
                    address,
                    decimals: 0,
                    supply: 0,
                    mint_authority: Some(issuer),
                    freeze_authority: Some(issuer),
                };
                let ghost m = self@;
                proof {
                    if m.has_asset(address) {
                        let k = m.asset_index(address);
                        assert(0 <= k < m.assets.len() && m.assets[k].address == address);
                    }
                }
                self.assets.push(a);
                proof {
                    let m2 = self@;
                    lemma_asset_push(m, m2, a);
                    assert(m2.unique_holders()) by {
                        assert(m2.holders == m.holders);
                    }
                    assert(m2.unique_metadata()) by {
                        assert(m2.metadata == m.metadata);
                    }
                    assert forall|i: int|
                        0 <= i < m2.holders.len() implies m2.has_asset(
                        #[trigger] m2.holders[i].asset,
                    ) by {
                        let x = m2.holders[i].asset;
                        assert(m2.holders[i] == m.holders[i]);
                        assert(m.has_asset(x));
                        if x != address {
                            assert(m2.has_asset(x) == m.has_asset(x));
                        }
                    }
                    assert forall|i: int|
                        0 <= i < m2.metadata.len() implies m2.has_asset(
                        #[trigger] m2.metadata[i].asset,
                    ) by {
                        let x = m2.metadata[i].asset;
                        assert(m2.metadata[i] == m.metadata[i]);
                        assert(m.has_asset(x));
                        if x != address {
                            assert(m2.has_asset(x) == m.has_asset(x));
                        }
                    }
                    assert(m2.frozen_backed()) by {
                        assert(m2.holders == m.holders);
                    }
                    assert forall|i: int|
                        0 <= i < m2.holders.len() && (#[trigger] m2.holders[i]).balance >= 1 implies
                        m2.asset_of(m2.holders[i].asset).supply >= 1 by {
                        let x = m2.holders[i].asset;
                        assert(m2.holders[i] == m.holders[i]);
                        assert(m.has_asset(x));
                        assert(x != address);
                        assert(m2.asset_of(x) == m.asset_of(x));
                    }
                    assert forall|i: int|
                        0 <= i < m2.assets.len() implies (#[trigger] m2.assets[i]).decimals
                        == 0 by {
                        if i < m.assets.len() {
                            assert(m2.assets[i] == m.assets[i]);
                        } else {
                            assert(m2.assets[i] == a);
                        }
                    }
                }
                Ok(())
            },
        }
    }

    /// Holder Binder: creates the holder record for (asset, recipient) with
    /// zero balance, or reuses the existing one; the creation path is
    /// idempotent. Exactly `spec_bind_holder` happens; on failure nothing
    /// changes.
    pub fn bind_holder(&mut self, asset: u64, recipient: u64) -> (result: Result<(), LedgerError>)
        requires
            old(self)@.wf(),
        ensures
            final(self)@.wf(),
            ({
                match spec_bind_holder(old(self)@, asset, recipient) {
                    Ok(m) => result is Ok && final(self)@ == m,
                    Err(e) => result == Err::<(), LedgerError>(e) && final(self)@ == old(self)@,
                }
            }),
    {
        let ai = match find_asset(&self.assets, asset) {
            Some(ai) => ai,
            None => {
                proof {
                    if self@.has_asset(asset) {
                        let k = self@.asset_index(asset);
                        assert(0 <= k < self@.assets.len() && self@.assets[k].address == asset);
                    }
                }
                return Err(LedgerError::ValidationError);
            },
        };
        proof {
            lemma_asset_resolve(self@, asset, ai as int);
        }
        match find_holder(&self.holders, asset, recipient) {
            Some(hi) => {
                proof {
                    lemma_holder_resolve(self@, asset, recipient, hi as int);
                }
                Ok(())
            },
            None => {
                let h = HolderRecord { asset, owner: recipient, balance: 0, frozen: false };
                let ghost m = self@;
                proof {
                    if m.has_holder(asset, recipient) {
                        let k = m.holder_index(asset, recipient);
                        assert(0 <= k < m.holders.len() && m.holders[k].asset == asset
                            && m.holders[k].owner == recipient);
                    }
                }
                self.holders.push(h);
                proof {
                    let m2 = self@;
                    lemma_holder_push(m, m2, h);
                    lemma_same_assets(m, m2);
                    lemma_same_metadata(m, m2);
                    assert forall|i: int|
                        0 <= i < m2.holders.len() implies m2.has_asset(
                        #[trigger] m2.holders[i].asset,
                    ) by {
                        if i < m.holders.len() {
                            assert(m2.holders[i] == m.holders[i]);
                            assert(m.has_asset(m.holders[i].asset));
                        } else {
                            assert(m2.holders[i] == h);
                            assert(m.has_asset(asset));
                        }
                    }
                    assert forall|i: int|
                        0 <= i < m2.metadata.len() implies m2.has_asset(
                        #[trigger] m2.metadata[i].asset,
                    ) by {
                        assert(m2.metadata[i] == m.metadata[i]);
                        assert(m.has_asset(m.metadata[i].asset));
                    }
                    assert forall|i: int|
                        0 <= i < m2.holders.len() && (#[trigger] m2.holders[i]).frozen implies
                        m2.holders[i].balance >= 1 by {
                        if i < m.holders.len() {
                            assert(m2.holders[i] == m.holders[i]);
                        } else {
                            assert(m2.holders[i] == h);
                        }
                    }
                    assert forall|i: int|
                        0 <= i < m2.holders.len() && (#[trigger] m2.holders[i]).balance >= 1 implies
                        m2.asset_of(m2.holders[i].asset).supply >= 1 by {
                        assert(i < m.holders.len());
                        assert(m2.holders[i] == m.holders[i]);
                        assert(m.has_asset(m.holders[i].asset));
                        assert(m2.asset_of(m.holders[i].asset) == m.asset_of(m.holders[i].asset));
                    }
                }
                Ok(())
            },
        }
    }

    /// Asset Registry: mints exactly one unit of `asset` into the
    /// (asset, owner) holder record, authorized by the current mint
    /// authority. Exactly `spec_mint_one` happens; on failure nothing
    /// changes.
    pub fn mint_one(&mut self, asset: u64, owner: u64, caller: u64) -> (result: Result<
        (),
        LedgerError,
    >)
        requires
            old(self)@.wf(),
        ensures
            final(self)@.wf(),
            ({
                match spec_mint_one(old(self)@, asset, owner, caller) {
                    Ok(m) => result is Ok && final(self)@ == m,
                    Err(e) => result == Err::<(), LedgerError>(e) && final(self)@ == old(self)@,
                }
            }),
    {
        let ai = match find_asset(&self.assets, asset) {
            Some(ai) => ai,
            None => {
                proof {
                    if self@.has_asset(asset) {
                        let k = self@.asset_index(asset);
                        assert(0 <= k < self@.assets.len() && self@.assets[k].address == asset);
                    }
                }
                return Err(LedgerError::ValidationError);
            },
        };
        proof {
            lemma_asset_resolve(self@, asset, ai as int);
        }
        let a = self.assets[ai];
        let auth = match a.mint_authority {
            None => {
                return Err(LedgerError::MintAuthorityRevoked);
            },
            Some(auth) => auth,
        };
        if auth != caller {
            return Err(LedgerError::AuthorityError);
        }
        let hi = match find_holder(&self.holders, asset, owner) {
            Some(hi) => hi,
            None => {
                proof {
                    if self@.has_holder(asset, owner) {
                        let k = self@.holder_index(asset, owner);
                        assert(0 <= k < self@.holders.len() && self@.holders[k].asset == asset
                            && self@.holders[k].owner == owner);
                    }
                }
                return Err(LedgerError::NoSuchAccount);
            },
        };
        proof {
            lemma_holder_resolve(self@, asset, owner, hi as int);
        }
        let h = self.holders[hi];
        if h.frozen {
            return Err(LedgerError::AccountFrozen);
        }
        if a.supply == u64::MAX || h.balance == u64::MAX {
            return Err(LedgerError::NestedCallFailure);
        }
        let ghost m = self@;
        let a2 = Asset {
            address: a.address,
            decimals: a.decimals,
            supply: a.supply + 1,
            mint_authority: a.mint_authority,
            freeze_authority: a.freeze_authority,
        };
        self.assets[ai] = a2;
        let ghost ma = self@;
        let h2 = HolderRecord {
            asset: h.asset,
            owner: h.owner,
            balance: h.balance + 1,
            frozen: h.frozen,
        };
        self.holders[hi] = h2;
        proof {
            let m2 = self@;
            lemma_asset_update(m, ma, ai as int, a2);
            lemma_same_holders(m, ma);
            lemma_holder_update(ma, m2, hi as int, h2);
            lemma_same_assets(ma, m2);
            lemma_same_metadata(m, ma);
            lemma_same_metadata(ma, m2);
            assert(m2.assets == m.assets.update(m.asset_index(asset), a2));
            assert(m2.holders == m.holders.update(m.holder_index(asset, owner), h2));
            assert(m2.metadata == m.metadata);
            assert forall|i: int|
                0 <= i < m2.holders.len() implies m2.has_asset(#[trigger] m2.holders[i].asset) by {
                if i == hi as int {
                    assert(m2.holders[i] == h2);
                    assert(ma.has_asset(asset));
                } else {
                    assert(m2.holders[i] == m.holders[i]);
                    assert(m.has_asset(m.holders[i].asset));
                    assert(ma.has_asset(m.holders[i].asset));
                }
            }
            assert forall|i: int|
                0 <= i < m2.metadata.len() implies m2.has_asset(#[trigger] m2.metadata[i].asset) by {
                assert(m2.metadata[i] == m.metadata[i]);
                assert(m.has_asset(m.metadata[i].asset));
                assert(ma.has_asset(m.metadata[i].asset));
            }
            assert forall|i: int|
                0 <= i < m2.holders.len() && (#[trigger] m2.holders[i]).frozen implies
                m2.holders[i].balance >= 1 by {
                if i == hi as int {
                    assert(m2.holders[i] == h2);
                } else {
                    assert(m2.holders[i] == m.holders[i]);
                }
            }
            assert forall|i: int|
                0 <= i < m2.holders.len() && (#[trigger] m2.holders[i]).balance >= 1 implies
                m2.asset_of(m2.holders[i].asset).supply >= 1 by {
                let x = m2.holders[i].asset;
                if x == asset {
                    assert(ma.asset_of(asset) == a2);
                    assert(m2.asset_of(asset) == a2);
                } else {
                    assert(i != hi as int);
                    assert(m2.holders[i] == m.holders[i]);
                    assert(m.has_asset(x));
                    assert(m.asset_of(x).supply >= 1);
                    assert(ma.asset_of(x) == m.asset_of(x));
                    assert(m2.asset_of(x) == ma.asset_of(x));
                }
            }
            assert forall|i: int|
                0 <= i < m2.assets.len() implies (#[trigger] m2.assets[i]).decimals == 0 by {
                if i == ai as int {
                    assert(m2.assets[i] == a2);
                } else {
                    assert(m2.assets[i] == m.assets[i]);
                }
            }
        }
        Ok(())
    }

    /// Metadata Attacher: attaches the descriptive record to `asset`
    /// exactly once, authorized by the asset's mint authority; the record
    /// stays mutable so the issuer can correct a broken content pointer.
    /// Exactly `spec_attach_metadata` happens; on failure nothing changes.
    pub fn attach_metadata(
        &mut self,
        asset: u64,
        caller: u64,
        name: &String,
        symbol: &String,
        content_uri: &String,
        vc_hash: &String,
    ) -> (result: Result<(), LedgerError>)
        requires
            old(self)@.wf(),
        ensures
            final(self)@.wf(),
            ({
                match spec_attach_metadata(
                    old(self)@,
                    asset,
                    caller,
                    *name,
                    *symbol,
                    *content_uri,
                    *vc_hash,
                ) {
                    Ok(m) => result is Ok && final(self)@ == m,
                    Err(e) => result == Err::<(), LedgerError>(e) && final(self)@ == old(self)@,
                }
            }),
    {
        let ai = match find_asset(&self.assets, asset) {
            Some(ai) => ai,
            None => {
                proof {
                    if self@.has_asset(asset) {
                        let k = self@.asset_index(asset);
                        assert(0 <= k < self@.assets.len() && self@.assets[k].address == asset);
                    }
                }
                return Err(LedgerError::ValidationError);
            },
        };
        proof {
            lemma_asset_resolve(self@, asset, ai as int);
        }
        match find_metadata(&self.metadata, asset) {
            Some(mi) => {
                proof {
                    lemma_metadata_resolve(self@, asset, mi as int);
                }
                return Err(LedgerError::AlreadyInitialized);
            },
            None => {
                proof {
                    if self@.has_metadata(asset) {
                        let k = self@.metadata_index(asset);
                        assert(0 <= k < self@.metadata.len() && self@.metadata[k].asset == asset);
                    }
                }
            },
        }
        let a = self.assets[ai];
        let authorized = match a.mint_authority {
            Some(auth) => auth == caller,
            None => false,
        };
        if !authorized {
            return Err(LedgerError::Unauthorized);
        }
        let r = MetadataRecord {
            asset,
            name: name.clone(),
            symbol: symbol.clone(),
            content_uri: content_uri.clone(),
            vc_hash: vc_hash.clone(),
            update_authority: caller,
            mutable: true,
        };
        let ghost m = self@;
        self.metadata.push(r);
        proof {
            let m2 = self@;
            lemma_metadata_push(m, m2, r);
            lemma_same_assets(m, m2);
            lemma_same_holders(m, m2);
            assert forall|i: int|
                0 <= i < m2.holders.len() implies m2.has_asset(#[trigger] m2.holders[i].asset) by {
                assert(m2.holders[i] == m.holders[i]);
                assert(m.has_asset(m.holders[i].asset));
            }
            assert forall|i: int|
                0 <= i < m2.metadata.len() implies m2.has_asset(#[trigger] m2.metadata[i].asset) by {
                if i < m.metadata.len() {
                    assert(m2.metadata[i] == m.metadata[i]);
                    assert(m.has_asset(m.metadata[i].asset));
                } else {
                    assert(m2.metadata[i] == r);
                    assert(m.has_asset(asset));
                }
            }
            assert forall|i: int|
                0 <= i < m2.holders.len() && (#[trigger] m2.holders[i]).balance >= 1 implies
                m2.asset_of(m2.holders[i].asset).supply >= 1 by {
                assert(m2.holders[i] == m.holders[i]);
                assert(m.has_asset(m.holders[i].asset));
                assert(m2.asset_of(m.holders[i].asset) == m.asset_of(m.holders[i].asset));
            }
        }
        Ok(())
    }

    /// Authority Revoker, first sub-step: drops the mint capability of
    /// `asset` for good; no operation ever reinstates it. Dropping an
    /// already absent capability is a no-op. Exactly
    /// `spec_revoke_mint_authority` happens; on failure nothing changes.
    pub fn revoke_mint_authority(&mut self, asset: u64, caller: u64) -> (result: Result<
        (),
        LedgerError,
    >)
        requires
            old(self)@.wf(),
        ensures
            final(self)@.wf(),
            ({
                match spec_revoke_mint_authority(old(self)@, asset, caller) {
                    Ok(m) => result is Ok && final(self)@ == m,
                    Err(e) => result == Err::<(), LedgerError>(e) && final(self)@ == old(self)@,
                }
            }),
    {
        let ai = match find_asset(&self.assets, asset) {
            Some(ai) => ai,
            None => {
                proof {
                    if self@.has_asset(asset) {
                        let k = self@.asset_index(asset);
                        assert(0 <= k < self@.assets.len() && self@.assets[k].address == asset);
                    }
                }
                return Err(LedgerError::ValidationError);
            },
        };
        proof {
            lemma_asset_resolve(self@, asset, ai as int);
        }
        let a = self.assets[ai];
        let auth = match a.mint_authority {
            None => {
                return Ok(());
            },
            Some(auth) => auth,
        };
        if auth != caller {
            return Err(LedgerError::Unauthorized);
        }
        let ghost m = self@;
        let a2 = Asset {
            address: a.address,
            decimals: a.decimals,
            supply: a.supply,
            mint_authority: None,
            freeze_authority: a.freeze_authority,
        };
        self.assets[ai] = a2;
        proof {
            let m2 = self@;
            lemma_asset_update(m, m2, ai as int, a2);
            lemma_same_holders(m, m2);
            lemma_same_metadata(m, m2);
            assert(m2.assets == m.assets.update(m.asset_index(asset), a2));
            assert forall|i: int|
                0 <= i < m2.holders.len() implies m2.has_asset(#[trigger] m2.holders[i].asset) by {
                assert(m2.holders[i] == m.holders[i]);
                assert(m.has_asset(m.holders[i].asset));
            }
            assert forall|i: int|
                0 <= i < m2.metadata.len() implies m2.has_asset(#[trigger] m2.metadata[i].asset) by {
                assert(m2.metadata[i] == m.metadata[i]);
                assert(m.has_asset(m.metadata[i].asset));
            }
            assert forall|i: int|
                0 <= i < m2.holders.len() && (#[trigger] m2.holders[i]).balance >= 1 implies
                m2.asset_of(m2.holders[i].asset).supply >= 1 by {
                let x = m2.holders[i].asset;
                assert(m2.holders[i] == m.holders[i]);
                assert(m.has_asset(x));
                assert(m.asset_of(x).supply >= 1);
                if x == asset {
                    assert(m2.asset_of(asset) == a2);
                } else {
                    assert(m2.asset_of(x) == m.asset_of(x));
                }
            }
            assert forall|i: int|
                0 <= i < m2.assets.len() implies (#[trigger] m2.assets[i]).decimals == 0 by {
                if i == ai as int {
                    assert(m2.assets[i] == a2);
                } else {
                    assert(m2.assets[i] == m.assets[i]);
                }
            }
        }
        Ok(())
    }

    /// Authority Revoker, second sub-step: reaffirms the freeze capability
    /// to the caller and freezes the (asset, owner) holder record, blocking
    /// it from any further balance change. Exactly
    /// `spec_reassign_freeze_and_freeze` happens; on failure nothing
    /// changes.
    pub fn reassign_freeze_and_freeze(&mut self, asset: u64, owner: u64, caller: u64) -> (result:
        Result<(), LedgerError>)
        requires
            old(self)@.wf(),
        ensures
            final(self)@.wf(),
            ({
                match spec_reassign_freeze_and_freeze(old(self)@, asset, owner, caller) {
                    Ok(m) => result is Ok && final(self)@ == m,
                    Err(e) => result == Err::<(), LedgerError>(e) && final(self)@ == old(self)@,
                }
            }),
    {
        let ai = match find_asset(&self.assets, asset) {
            Some(ai) => ai,
            None => {
                proof {
                    if self@.has_asset(asset) {
                        let k = self@.asset_index(asset);
                        assert(0 <= k < self@.assets.len() && self@.assets[k].address == asset);
                    }
                }
                return Err(LedgerError::ValidationError);
            },
        };
        proof {
            lemma_asset_resolve(self@, asset, ai as int);
        }
        let a = self.assets[ai];
        let authorized = match a.freeze_authority {
            Some(auth) => auth == caller,
            None => false,
        };
        if !authorized {
            return Err(LedgerError::Unauthorized);
        }
        let hi = match find_holder(&self.holders, asset, owner) {
            Some(hi) => hi,
            None => {
                proof {
                    if self@.has_holder(asset, owner) {
                        let k = self@.holder_index(asset, owner);
                        assert(0 <= k < self@.holders.len() && self@.holders[k].asset == asset
                            && self@.holders[k].owner == owner);
                    }
                }
                return Err(LedgerError::NoSuchAccount);
            },
        };
        proof {
            lemma_holder_resolve(self@, asset, owner, hi as int);
        }
        let h = self.holders[hi];
        if h.balance == 0 {
            return Err(LedgerError::NoSuchAccount);
        }
        if h.frozen {
            return Err(LedgerError::AccountFrozen);
        }
        let ghost m = self@;
        let a2 = Asset {
            address: a.address,
            decimals: a.decimals,
            supply: a.supply,
            mint_authority: a.mint_authority,
            freeze_authority: Some(caller),
        };
        self.assets[ai] = a2;
        let ghost ma = self@;
        let h2 = HolderRecord { asset: h.asset, owner: h.owner, balance: h.balance, frozen: true };
        self.holders[hi] = h2;
        proof {
            let m2 = self@;
            lemma_asset_update(m, ma, ai as int, a2);
            lemma_same_holders(m, ma);
            lemma_holder_update(ma, m2, hi as int, h2);
            lemma_same_assets(ma, m2);
            lemma_same_metadata(m, ma);
            lemma_same_metadata(ma, m2);
            assert(m2.assets == m.assets.update(m.asset_index(asset), a2));
            assert(m2.holders == m.holders.update(m.holder_index(asset, owner), h2));
            assert(m2.metadata == m.metadata);
            assert forall|i: int|
                0 <= i < m2.holders.len() implies m2.has_asset(#[trigger] m2.holders[i].asset) by {
                if i == hi as int {
                    assert(m2.holders[i] == h2);
                    assert(ma.has_asset(asset));
                } else {
                    assert(m2.holders[i] == m.holders[i]);
                    assert(m.has_asset(m.holders[i].asset));
                    assert(ma.has_asset(m.holders[i].asset));
                }
            }
            assert forall|i: int|
                0 <= i < m2.metadata.len() implies m2.has_asset(#[trigger] m2.metadata[i].asset) by {
                assert(m2.metadata[i] == m.metadata[i]);
                assert(m.has_asset(m.metadata[i].asset));
                assert(ma.has_asset(m.metadata[i].asset));
            }
            assert forall|i: int|
                0 <= i < m2.holders.len() && (#[trigger] m2.holders[i]).frozen implies
                m2.holders[i].balance >= 1 by {
                if i == hi as int {
                    assert(m2.holders[i] == h2);
                } else {
                    assert(m2.holders[i] == m.holders[i]);
                }
            }
            assert forall|i: int|
                0 <= i < m2.holders.len() && (#[trigger] m2.holders[i]).balance >= 1 implies
                m2.asset_of(m2.holders[i].asset).supply >= 1 by {
                let x = m2.holders[i].asset;
                if i == hi as int {
                    assert(m2.holders[i] == h2);
                    assert(m.asset_of(asset).supply >= 1);
                    assert(ma.asset_of(asset) == a2);
                    assert(m2.asset_of(asset) == a2);
                } else {
                    assert(m2.holders[i] == m.holders[i]);
                    assert(m.has_asset(x));
                    assert(m.asset_of(x).supply >= 1);
                    if x == asset {
                        assert(ma.asset_of(asset) == a2);
                        assert(m2.asset_of(asset) == a2);
                    } else {
                        assert(ma.asset_of(x) == m.asset_of(x));
                        assert(m2.asset_of(x) == ma.asset_of(x));
                    }
                }
            }
            assert forall|i: int|
                0 <= i < m2.assets.len() implies (#[trigger] m2.assets[i]).decimals == 0 by {
                if i == ai as int {
                    assert(m2.assets[i] == a2);
                } else {
                    assert(m2.assets[i] == m.assets[i]);
                }
            }
        }
        Ok(())
    }

    /// Token movement between holder records, authorized by the source
    /// owner. A frozen record on either side blocks the move, which is what
    /// makes a frozen certificate non-transferable. Exactly
    /// `spec_transfer_one` happens; on failure nothing changes.
    pub fn transfer_one(&mut self, asset: u64, from: u64, to: u64, caller: u64) -> (result: Result<
        (),
        LedgerError,
    >)
        requires
            old(self)@.wf(),
        ensures
            final(self)@.wf(),
            ({
                match spec_transfer_one(old(self)@, asset, from, to, caller) {
                    Ok(m) => result is Ok && final(self)@ == m,
                    Err(e) => result == Err::<(), LedgerError>(e) && final(self)@ == old(self)@,
                }
            }),
    {
        let ai = match find_asset(&self.assets, asset) {
            Some(ai) => ai,
            None => {
                proof {
                    if self@.has_asset(asset) {
                        let k = self@.asset_index(asset);
                        assert(0 <= k < self@.assets.len() && self@.assets[k].address == asset);
                    }
                }
                return Err(LedgerError::ValidationError);
            },
        };
        proof {
            lemma_asset_resolve(self@, asset, ai as int);
        }
        if caller != from {
            return Err(LedgerError::Unauthorized);
        }
        let hif = match find_holder(&self.holders, asset, from) {
            Some(hi) => hi,
            None => {
                proof {
                    if self@.has_holder(asset, from) {
                        let k = self@.holder_index(asset, from);
                        assert(0 <= k < self@.holders.len() && self@.holders[k].asset == asset
                            && self@.holders[k].owner == from);
                    }
                }
                return Err(LedgerError::NoSuchAccount);
            },
        };
        proof {
            lemma_holder_resolve(self@, asset, from, hif as int);
        }
        let hf = self.holders[hif];
        if hf.frozen {
            return Err(LedgerError::AccountFrozen);
        }
        if hf.balance == 0 {
            return Err(LedgerError::InsufficientFunds);
        }
        let hit = match find_holder(&self.holders, asset, to) {
            Some(hi) => hi,
            None => {
                proof {
                    if self@.has_holder(asset, to) {
                        let k = self@.holder_index(asset, to);
                        assert(0 <= k < self@.holders.len() && self@.holders[k].asset == asset
                            && self@.holders[k].owner == to);
                    }
                }
                return Err(LedgerError::NoSuchAccount);
            },
        };
        proof {
            lemma_holder_resolve(self@, asset, to, hit as int);
        }
        let ht = self.holders[hit];
        if ht.frozen {
            return Err(LedgerError::AccountFrozen);
        }
        if from == to {
            return Ok(());
        }
        if ht.balance == u64::MAX {
            return Err(LedgerError::NestedCallFailure);
        }
        let ghost m = self@;
        let hf2 = HolderRecord {
            asset: hf.asset,
            owner: hf.owner,
            balance: hf.balance - 1,
            frozen: hf.frozen,
        };
        self.holders[hif] = hf2;
        let ghost mf = self@;
        let ht2 = HolderRecord {
            asset: ht.asset,
            owner: ht.owner,
            balance: ht.balance + 1,
            frozen: ht.frozen,
        };
        self.holders[hit] = ht2;
        proof {
            let m2 = self@;
            assert(hif != hit);
            lemma_holder_update(m, mf, hif as int, hf2);
            assert(mf.holders[hit as int] == m.holders[hit as int]);
            lemma_holder_update(mf, m2, hit as int, ht2);
            lemma_same_assets(m, mf);
            lemma_same_assets(mf, m2);
            lemma_same_metadata(m, mf);
            lemma_same_metadata(mf, m2);
            assert(m2.holders == m.holders.update(m.holder_index(asset, from), hf2).update(
                m.holder_index(asset, to),
                ht2,
            ));
            assert(m2.assets == m.assets);
            assert(m2.metadata == m.metadata);
            assert forall|i: int|
                0 <= i < m2.holders.len() implies m2.has_asset(#[trigger] m2.holders[i].asset) by {
                if i == hif as int {
                    assert(m2.holders[i] == hf2);
                } else if i == hit as int {
                    assert(m2.holders[i] == ht2);
                } else {
                    assert(m2.holders[i] == m.holders[i]);
                }
                assert(m.has_asset(m2.holders[i].asset));
                assert(mf.has_asset(m2.holders[i].asset));
            }
            assert forall|i: int|
                0 <= i < m2.metadata.len() implies m2.has_asset(#[trigger] m2.metadata[i].asset) by {
                assert(m2.metadata[i] == m.metadata[i]);
                assert(m.has_asset(m.metadata[i].asset));
                assert(mf.has_asset(m.metadata[i].asset));
            }
            assert forall|i: int|
                0 <= i < m2.holders.len() && (#[trigger] m2.holders[i]).frozen implies
                m2.holders[i].balance >= 1 by {
                if i == hif as int {
                    assert(m2.holders[i] == hf2);
                } else if i == hit as int {
                    assert(m2.holders[i] == ht2);
                } else {
                    assert(m2.holders[i] == m.holders[i]);
                }
            }
            assert forall|i: int|
                0 <= i < m2.holders.len() && (#[trigger] m2.holders[i]).balance >= 1 implies
                m2.asset_of(m2.holders[i].asset).supply >= 1 by {
                let x = m2.holders[i].asset;
                if i == hif as int {
                    assert(m2.holders[i] == hf2);
                    assert(x == asset);
                } else if i == hit as int {
                    assert(m2.holders[i] == ht2);
                    assert(x == asset);
                } else {
                    assert(m2.holders[i] == m.holders[i]);
                }
                if x == asset {
                    assert(m.asset_of(asset).supply >= 1);
                } else {
                    assert(m.has_asset(x));
                    assert(m.asset_of(x).supply >= 1);
                }
                assert(mf.asset_of(x) == m.asset_of(x));
                assert(m2.asset_of(x) == mf.asset_of(x));
            }
        }
        Ok(())
    }

    /// A deep copy of the whole store, the scratch state an atomic unit
    /// runs on before its changes are committed.
    pub fn snapshot(&self) -> (c: Ledger)
        ensures
            c@ == self@,
    {
        let mut assets: Vec<Asset> = Vec::new();
        let mut i: usize = 0;
        while i < self.assets.len()
            invariant
                i <= self.assets@.len(),
                assets@ == self.assets@.take(i as int),
            decreases self.assets@.len() - i,
        {
            assets.push(self.assets[i]);
            proof {
                assert(assets@ =~= self.assets@.take(i as int + 1));
            }
            i = i + 1;
        }
        let mut holders: Vec<HolderRecord> = Vec::new();
        let mut j: usize = 0;
        while j < self.holders.len()
            invariant
                j <= self.holders@.len(),
                holders@ == self.holders@.take(j as int),
            decreases self.holders@.len() - j,
        {
            holders.push(self.holders[j]);
            proof {
                assert(holders@ =~= self.holders@.take(j as int + 1));
            }
            j = j + 1;
        }
        let mut metadata: Vec<MetadataRecord> = Vec::new();
        let mut k: usize = 0;
        while k < self.metadata.len()
            invariant
                k <= self.metadata@.len(),
                metadata@ == self.metadata@.take(k as int),
            decreases self.metadata@.len() - k,
        {
            metadata.push(copy_metadata_record(&self.metadata[k]));
            proof {
                assert(metadata@ =~= self.metadata@.take(k as int + 1));
            }
            k = k + 1;
        }
        let c = Ledger { assets, holders, metadata };
        proof {
            assert(c@.assets =~= self@.assets);
            assert(c@.holders =~= self@.holders);
            assert(c@.metadata =~= self@.metadata);
        }
        c
    }

    /// Whether an asset is stored under `address`.
    pub fn contains_asset(&self, address: u64) -> (present: bool)
        requires
            self@.wf(),
        ensures
            present == self@.has_asset(address),
    {
        match find_asset(&self.assets, address) {
            Some(i) => {
                proof {
                    lemma_asset_resolve(self@, address, i as int);
                }
                true
            },
            None => {
                proof {
                    if self@.has_asset(address) {
                        let k = self@.asset_index(address);
                        assert(0 <= k < self@.assets.len() && self@.assets[k].address == address);
                    }
                }
                false
            },
        }
    }

    /// The asset stored under `address`, if any.
    pub fn get_asset(&self, address: u64) -> (r: Option<Asset>)
        requires
            self@.wf(),
        ensures
            match r {
                Some(a) => self@.has_asset(address) && a == self@.asset_of(address),
                None => !self@.has_asset(address),
            },
    {
        match find_asset(&self.assets, address) {
            Some(i) => {
                proof {
                    lemma_asset_resolve(self@, address, i as int);
                }
                Some(self.assets[i])
            },
            None => {
                proof {
                    if self@.has_asset(address) {
                        let k = self@.asset_index(address);
                        assert(0 <= k < self@.assets.len() && self@.assets[k].address == address);
                    }
                }
                None
            },
        }
    }

    /// The holder record stored under (asset, owner), if any.
    pub fn get_holder(&self, asset: u64, owner: u64) -> (r: Option<HolderRecord>)
        requires
            self@.wf(),
        ensures
            match r {
                Some(h) => self@.has_holder(asset, owner) && h == self@.holder_of(asset, owner),
                None => !self@.has_holder(asset, owner),
            },
    {
        match find_holder(&self.holders, asset, owner) {
            Some(i) => {
                proof {
                    lemma_holder_resolve(self@, asset, owner, i as int);
                }
                Some(self.holders[i])
            },
            None => {
                proof {
                    if self@.has_holder(asset, owner) {
                        let k = self@.holder_index(asset, owner);
                        assert(0 <= k < self@.holders.len() && self@.holders[k].asset == asset
                            && self@.holders[k].owner == owner);
                    }
                }
                None
            },
        }
    }

    /// The metadata record stored for `asset`, if any.
    pub fn get_metadata(&self, asset: u64) -> (r: Option<&MetadataRecord>)
        requires
            self@.wf(),
        ensures
            match r {
                Some(rec) => self@.has_metadata(asset) && *rec == self@.metadata_of(asset),
                None => !self@.has_metadata(asset),
            },
    {
        match find_metadata(&self.metadata, asset) {
            Some(i) => {
                proof {
                    lemma_metadata_resolve(self@, asset, i as int);
                }
                Some(&self.metadata[i])
            },
            None => {
                proof {
                    if self@.has_metadata(asset) {
                        let k = self@.metadata_index(asset);
                        assert(0 <= k < self@.metadata.len() && self@.metadata[k].asset == asset);
                    }
                }
                None
            },
        }
    }
}

} // verus!
