use crate::accounts::{is_soulbound, Asset, HolderRecord, MetadataRecord};
use crate::errors::LedgerError;
use crate::ledger::Ledger;
use crate::model::{
    lemma_asset_push, lemma_asset_update, lemma_holder_push, lemma_holder_update,
    lemma_metadata_push, lemma_same_assets, lemma_same_holders, lemma_same_metadata,
    spec_attach_metadata, spec_bind_holder, spec_create_asset, spec_mint_one,
    spec_reassign_freeze_and_freeze, spec_revoke_mint_authority, LedgerModel,
};
use vstd::prelude::*;

verus! {

/// The number of fresh storage slots one issuance allocates: the asset,
/// the holder record and the metadata record.
pub const NEW_SLOT_COUNT: u64 = 3;

/// The accounts one issuance runs against, as plain references. The zero
/// address stands for a missing reference.
#[derive(Clone, Copy, Debug, PartialEq, Eq, Structural)]
pub struct IssueCertificate {
    /// Address the fresh asset is created under.
    pub asset_address: u64,
    /// The recipient identity; referenced only, never a co-signer.
    pub recipient: u64,
    /// The authorizing issuer identity; signs and funds the new slots.
    pub issuer: u64,
    /// How many storage slots the issuer can fund.
    pub issuer_funds: u64,
}

impl IssueCertificate {
    /// Every identity reference is present.
    pub open spec fn valid(self) -> bool {
        self.asset_address != 0 && self.recipient != 0 && self.issuer != 0
    }

    /// The issuer can fund every slot the issuance allocates.
    pub open spec fn funded(self) -> bool {
        self.issuer_funds >= NEW_SLOT_COUNT
    }
}

/// The asset a successful issuance leaves behind: one unit minted, the
/// mint capability gone, the freeze capability with the issuer.
pub open spec fn issued_asset(accounts: IssueCertificate) -> Asset {
    Asset {
        address: accounts.asset_address,
        decimals: 0,
        supply: 1,
        mint_authority: None,
        freeze_authority: Some(accounts.issuer),
    }
}

/// The holder record a successful issuance leaves behind: the single unit,
/// owned by the recipient, frozen.
pub open spec fn issued_holder(accounts: IssueCertificate) -> HolderRecord {
    HolderRecord {
        asset: accounts.asset_address,
        owner: accounts.recipient,
        balance: 1,
        frozen: true,
    }
}

/// The metadata record a successful issuance leaves behind.
pub open spec fn issued_metadata(
    accounts: IssueCertificate,
    metadata_uri: String,
    name: String,
    symbol: String,
    vc_hash: String,
) -> MetadataRecord {
    MetadataRecord {
        asset: accounts.asset_address,
        name,
        symbol,
        content_uri: metadata_uri,
        vc_hash,
        update_authority: accounts.issuer,
        mutable: true,
    }
}

/// Order invariant of the issuance sequence, step by step: on any
/// well-formed ledger with a fresh asset slot, the five steps before the
/// freeze all succeed, and at the moment the freeze step runs the supply
/// is already exactly one while the holder record is still unfrozen. Only
/// then does the freeze succeed — freezing never precedes minting, and it
/// never freezes more or less than the single minted unit.
pub proof fn lemma_issuance_freezes_only_after_single_mint(
    m: LedgerModel,
    accounts: IssueCertificate,
    metadata_uri: String,
    name: String,
    symbol: String,
    vc_hash: String,
)
    requires
        m.wf(),
        !m.has_asset(accounts.asset_address),
    ensures
        ({
            let s1 = spec_create_asset(m, accounts.asset_address, accounts.issuer);
            let s2 = spec_bind_holder(s1->Ok_0, accounts.asset_address, accounts.recipient);
            let s3 = spec_mint_one(
                s2->Ok_0,
                accounts.asset_address,
                accounts.recipient,
                accounts.issuer,
            );
            let s4 = spec_attach_metadata(
                s3->Ok_0,
                accounts.asset_address,
                accounts.issuer,
                name,
                symbol,
                metadata_uri,
                vc_hash,
            );
            let s5 = spec_revoke_mint_authority(s4->Ok_0, accounts.asset_address, accounts.issuer);
            let s6 = spec_reassign_freeze_and_freeze(
                s5->Ok_0,
                accounts.asset_address,
                accounts.recipient,
                accounts.issuer,
            );
            &&& s1 is Ok
            &&& s2 is Ok
            &&& s3 is Ok
            &&& s4 is Ok
            &&& s5 is Ok
            &&& s5->Ok_0.asset_of(accounts.asset_address).supply == 1
            &&& s5->Ok_0.has_holder(accounts.asset_address, accounts.recipient)
            &&& !s5->Ok_0.holder_of(accounts.asset_address, accounts.recipient).frozen
            &&& s6 is Ok
            &&& s6->Ok_0.holder_of(accounts.asset_address, accounts.recipient).frozen
            &&& s6->Ok_0.asset_of(accounts.asset_address).supply == 1
        }),
{
    let addr = accounts.asset_address;
    let recipient = accounts.recipient;
    let issuer = accounts.issuer;

    let asset0 = Asset {
        address: addr,
        decimals: 0,
        supply: 0,
        mint_authority: Some(issuer),
        freeze_authority: Some(issuer),
    };
    let s1 = spec_create_asset(m, addr, issuer);
    assert(s1 is Ok);
    let m1 = s1->Ok_0;
    assert(m1.assets == m.assets.push(asset0));
    lemma_asset_push(m, m1, asset0);
    lemma_same_holders(m, m1);
    lemma_same_metadata(m, m1);

    if m1.has_holder(addr, recipient) {
        assert(m.has_holder(addr, recipient));
        let k = m.holder_index(addr, recipient);
        assert(0 <= k < m.holders.len() && m.holders[k].asset == addr && m.holders[k].owner
            == recipient);
        assert(m.has_asset(addr));
    }
    let holder0 = HolderRecord { asset: addr, owner: recipient, balance: 0, frozen: false };
    let s2 = spec_bind_holder(m1, addr, recipient);
    assert(s2 is Ok);
    let m2 = s2->Ok_0;
    assert(m2.holders == m1.holders.push(holder0));
    lemma_holder_push(m1, m2, holder0);
    lemma_same_assets(m1, m2);
    lemma_same_metadata(m1, m2);
    assert(m2.asset_of(addr) == asset0);
    assert(m2.holder_of(addr, recipient) == holder0);

    let asset1 = Asset {
        address: addr,
        decimals: 0,
        supply: 1,
        mint_authority: Some(issuer),
        freeze_authority: Some(issuer),
    };
    let holder1 = HolderRecord { asset: addr, owner: recipient, balance: 1, frozen: false };
    let s3 = spec_mint_one(m2, addr, recipient, issuer);
    assert(s3 is Ok);
    let m3 = s3->Ok_0;
    assert(m3.assets == m2.assets.update(m2.asset_index(addr), asset1));
    assert(m3.holders == m2.holders.update(m2.holder_index(addr, recipient), holder1));
    lemma_asset_update(m2, m3, m2.asset_index(addr), asset1);
    lemma_holder_update(m2, m3, m2.holder_index(addr, recipient), holder1);
    lemma_same_metadata(m2, m3);
    assert(m3.asset_of(addr) == asset1);
    assert(m3.holder_of(addr, recipient) == holder1);

    if m3.has_metadata(addr) {
        assert(m2.has_metadata(addr));
        assert(m1.has_metadata(addr));
        assert(m.has_metadata(addr));
        let k = m.metadata_index(addr);
        assert(0 <= k < m.metadata.len() && m.metadata[k].asset == addr);
        assert(m.has_asset(addr));
    }
    let meta0 = MetadataRecord {
        asset: addr,
        name,
        symbol,
        content_uri: metadata_uri,
        vc_hash,
        update_authority: issuer,
        mutable: true,
    };
    let s4 = spec_attach_metadata(m3, addr, issuer, name, symbol, metadata_uri, vc_hash);
    assert(s4 is Ok);
    let m4 = s4->Ok_0;
    assert(m4.metadata == m3.metadata.push(meta0));
    lemma_metadata_push(m3, m4, meta0);
    lemma_same_assets(m3, m4);
    lemma_same_holders(m3, m4);
    assert(m4.asset_of(addr) == asset1);
    assert(m4.holder_of(addr, recipient) == holder1);

    let asset2 = Asset {
        address: addr,
        decimals: 0,
        supply: 1,
        mint_authority: None,
        freeze_authority: Some(issuer),
    };
    let s5 = spec_revoke_mint_authority(m4, addr, issuer);
    assert(s5 is Ok);
    let m5 = s5->Ok_0;
    assert(m5.assets == m4.assets.update(m4.asset_index(addr), asset2));
    let ka = m4.asset_index(addr);
    assert(0 <= ka < m4.assets.len() && m4.assets[ka].address == addr);
    lemma_asset_update(m4, m5, ka, asset2);
    lemma_same_holders(m4, m5);
    lemma_same_metadata(m4, m5);
    assert(m5.asset_of(addr) == asset2);
    assert(m5.holder_of(addr, recipient) == holder1);

    let asset3 = Asset {
        address: addr,
        decimals: 0,
        supply: 1,
        mint_authority: None,
        freeze_authority: Some(issuer),
    };
    let holder2 = HolderRecord { asset: addr, owner: recipient, balance: 1, frozen: true };
    let s6 = spec_reassign_freeze_and_freeze(m5, addr, recipient, issuer);
    assert(s6 is Ok);
    let m6 = s6->Ok_0;
    assert(m6.assets == m5.assets.update(m5.asset_index(addr), asset3));
    assert(m6.holders == m5.holders.update(m5.holder_index(addr, recipient), holder2));
    let kb = m5.asset_index(addr);
    assert(0 <= kb < m5.assets.len() && m5.assets[kb].address == addr);
    lemma_asset_update(m5, m6, kb, asset3);
    let kh = m5.holder_index(addr, recipient);
    assert(0 <= kh < m5.holders.len() && m5.holders[kh].asset == addr && m5.holders[kh].owner
        == recipient);
    lemma_holder_update(m5, m6, kh, holder2);
    assert(m6.holder_of(addr, recipient) == holder2);
    assert(m6.asset_of(addr) == asset3);
}

impl Ledger {
    /// Issuance Orchestrator: issues a soulbound certificate for the
    /// recipient inside one atomic unit of execution. Strictly in order:
    /// create the asset, bind the holder record, mint exactly one unit,
    /// attach the metadata, drop the mint capability, reaffirm the freeze
    /// capability and freeze the holder record. The `vc_hash` is stored
    /// in the metadata record as an opaque reference, never validated.
    ///
    /// On a missing reference the issuance fails with `ValidationError`;
    /// when the issuer cannot fund the three fresh slots, with
    /// `InsufficientFunds`; when the asset slot is already occupied at
    /// issuance start, with `AlreadyInitialized`. On every failure the
    /// ledger is exactly as it was: no partially issued certificate is
    /// ever observable. On success the ledger has gained exactly the
    /// issued asset, its frozen holder record, and its metadata record,
    /// and nothing else changed.
    pub fn issue_certificate(
        &mut self,
        accounts: IssueCertificate,
        metadata_uri: String,
        name: String,
        symbol: String,
        vc_hash: String,
    ) -> (result: Result<(), LedgerError>)
        requires
            old(self)@.wf(),
        ensures
            final(self)@.wf(),
            result is Err ==> final(self)@ == old(self)@,
            !accounts.valid() ==> result == Err::<(), LedgerError>(LedgerError::ValidationError),
            accounts.valid() && !accounts.funded() ==> result == Err::<(), LedgerError>(
                LedgerError::InsufficientFunds,
            ),
            accounts.valid() && accounts.funded() && old(self)@.has_asset(accounts.asset_address)
                ==> result == Err::<(), LedgerError>(LedgerError::AlreadyInitialized),
            accounts.valid() && accounts.funded() && !old(self)@.has_asset(accounts.asset_address)
                ==> ({
                &&& result is Ok
                &&& final(self)@.assets == old(self)@.assets.push(issued_asset(accounts))
                &&& final(self)@.holders == old(self)@.holders.push(issued_holder(accounts))
                &&& final(self)@.metadata == old(self)@.metadata.push(
                    issued_metadata(accounts, metadata_uri, name, symbol, vc_hash),
                )
            }),
            result is Ok ==> ({
                &&& final(self)@.has_asset(accounts.asset_address)
                &&& final(self)@.asset_of(accounts.asset_address) == issued_asset(accounts)
                &&& final(self)@.has_holder(accounts.asset_address, accounts.recipient)
                &&& final(self)@.holder_of(accounts.asset_address, accounts.recipient)
                    == issued_holder(accounts)
                &&& final(self)@.has_metadata(accounts.asset_address)
                &&& final(self)@.metadata_of(accounts.asset_address) == issued_metadata(
                    accounts,
                    metadata_uri,
                    name,
                    symbol,
                    vc_hash,
                )
                &&& is_soulbound(
                    final(self)@.asset_of(accounts.asset_address),
                    final(self)@.holder_of(accounts.asset_address, accounts.recipient),
                )
            }),
    {
        if accounts.asset_address == 0 || accounts.recipient == 0 || accounts.issuer == 0 {
            return Err(LedgerError::ValidationError);
        }
        if accounts.issuer_funds < NEW_SLOT_COUNT {
            return Err(LedgerError::InsufficientFunds);
        }
        if self.contains_asset(accounts.asset_address) {
            return Err(LedgerError::AlreadyInitialized);
        }
        let addr = accounts.asset_address;
        let recipient = accounts.recipient;
        let issuer = accounts.issuer;
        let ghost m0 = self@;
        let mut unit = self.snapshot();

        let asset0 = Asset {
            address: addr,
            decimals: 0,
            supply: 0,
            mint_authority: Some(issuer),
            freeze_authority: Some(issuer),
        };
        let r1 = unit.create_asset(addr, issuer);
        let ghost m1 = unit@;
        match r1 {
            Err(e) => {
                proof {
                    assert(false);
                }
                return Err(e);
            },
            Ok(()) => {},
        }
        proof {
            assert(m1.assets == m0.assets.push(asset0));
            lemma_asset_push(m0, m1, asset0);
            lemma_same_holders(m0, m1);
            lemma_same_metadata(m0, m1);
        }

        let holder0 = HolderRecord { asset: addr, owner: recipient, balance: 0, frozen: false };
        proof {
            if m1.has_holder(addr, recipient) {
                assert(m0.has_holder(addr, recipient));
                let k = m0.holder_index(addr, recipient);
                assert(0 <= k < m0.holders.len() && m0.holders[k].asset == addr
                    && m0.holders[k].owner == recipient);
                assert(m0.has_asset(addr));
            }
        }
        let r2 = unit.bind_holder(addr, recipient);
        let ghost m2 = unit@;
        match r2 {
            Err(e) => {
                proof {
                    assert(false);
                }
                return Err(e);
            },
            Ok(()) => {},
        }
        proof {
            assert(m2.holders == m1.holders.push(holder0));
            lemma_holder_push(m1, m2, holder0);
            lemma_same_assets(m1, m2);
            lemma_same_metadata(m1, m2);
            assert(m2.asset_of(addr) == asset0);
            assert(m2.holder_of(addr, recipient) == holder0);
        }

        let asset1 = Asset {
            address: addr,
            decimals: 0,
            supply: 1,
            mint_authority: Some(issuer),
            freeze_authority: Some(issuer),
        };
        let holder1 = HolderRecord { asset: addr, owner: recipient, balance: 1, frozen: false };
        let r3 = unit.mint_one(addr, recipient, issuer);
        let ghost m3 = unit@;
        match r3 {
            Err(e) => {
                proof {
                    assert(false);
                }
                return Err(e);
            },
            Ok(()) => {},
        }
        proof {
            assert(m3.assets == m2.assets.update(m2.asset_index(addr), asset1));
            assert(m3.holders == m2.holders.update(m2.holder_index(addr, recipient), holder1));
            lemma_asset_update(m2, m3, m2.asset_index(addr), asset1);
            lemma_holder_update(m2, m3, m2.holder_index(addr, recipient), holder1);
            lemma_same_metadata(m2, m3);
            assert(m3.asset_of(addr) == asset1);
            assert(m3.holder_of(addr, recipient) == holder1);
        }

        proof {
            if m3.has_metadata(addr) {
                assert(m2.has_metadata(addr));
                assert(m1.has_metadata(addr));
                assert(m0.has_metadata(addr));
                let k = m0.metadata_index(addr);
                assert(0 <= k < m0.metadata.len() && m0.metadata[k].asset == addr);
                assert(m0.has_asset(addr));
            }
        }
        let r4 = unit.attach_metadata(addr, issuer, &name, &symbol, &metadata_uri, &vc_hash);
        let ghost m4 = unit@;
        match r4 {
            Err(e) => {
                proof {
                    assert(false);
                }
                return Err(e);
            },
            Ok(()) => {},
        }
        let ghost meta0 = issued_metadata(accounts, metadata_uri, name, symbol, vc_hash);
        proof {
            assert(m4.metadata == m3.metadata.push(meta0));
            lemma_metadata_push(m3, m4, meta0);
            lemma_same_assets(m3, m4);
            lemma_same_holders(m3, m4);
            assert(m4.asset_of(addr) == asset1);
            assert(m4.holder_of(addr, recipient) == holder1);
        }

        let asset2 = Asset {
            address: addr,
            decimals: 0,
            supply: 1,
            mint_authority: None,
            freeze_authority: Some(issuer),
        };
        let r5 = unit.revoke_mint_authority(addr, issuer);
        let ghost m5 = unit@;
        match r5 {
            Err(e) => {
                proof {
                    assert(false);
                }
                return Err(e);
            },
            Ok(()) => {},
        }
        proof {
            assert(m5.assets == m4.assets.update(m4.asset_index(addr), asset2));
            let k = m4.asset_index(addr);
            assert(0 <= k < m4.assets.len() && m4.assets[k].address == addr);
            lemma_asset_update(m4, m5, k, asset2);
            lemma_same_holders(m4, m5);
            lemma_same_metadata(m4, m5);
            assert(m5.asset_of(addr) == asset2);
            assert(m5.holder_of(addr, recipient) == holder1);
        }

        let asset3 = Asset {
            address: addr,
            decimals: 0,
            supply: 1,
            mint_authority: None,
            freeze_authority: Some(issuer),
        };
        let holder2 = HolderRecord { asset: addr, owner: recipient, balance: 1, frozen: true };
        let r6 = unit.reassign_freeze_and_freeze(addr, recipient, issuer);
        let ghost m6 = unit@;
        match r6 {
            Err(e) => {
                proof {
                    assert(false);
                }
                return Err(e);
            },
            Ok(()) => {},
        }
        proof {
            assert(m6.assets == m5.assets.update(m5.asset_index(addr), asset3));
            assert(m6.holders == m5.holders.update(m5.holder_index(addr, recipient), holder2));
            let ka = m5.asset_index(addr);
            assert(0 <= ka < m5.assets.len() && m5.assets[ka].address == addr);
            lemma_asset_update(m5, m6, ka, asset3);
            let kh = m5.holder_index(addr, recipient);
            assert(0 <= kh < m5.holders.len() && m5.holders[kh].asset == addr
                && m5.holders[kh].owner == recipient);
            lemma_holder_update(m5, m6, kh, holder2);
            lemma_same_metadata(m5, m6);
            assert(m6.asset_of(addr) == asset3);
            assert(m6.holder_of(addr, recipient) == holder2);
            assert(m6.metadata_of(addr) == meta0);
            assert(m6.assets =~= m0.assets.push(asset3));
            assert(m6.holders =~= m0.holders.push(holder2));
            assert(m6.metadata == m0.metadata.push(meta0));
            assert(asset3 == issued_asset(accounts));
            assert(holder2 == issued_holder(accounts));
        }
        *self = unit;
        Ok(())
    }
}

} // verus!
