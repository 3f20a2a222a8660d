use certificate_nft::accounts::{Asset, HolderRecord};
use certificate_nft::atomic::Step;
use certificate_nft::errors::LedgerError;
use certificate_nft::issuance::IssueCertificate;
use certificate_nft::ledger::Ledger;

const ISSUER: u64 = 11;
const RECIPIENT: u64 = 22;
const ASSET: u64 = 101;

fn accounts_for(asset_address: u64, recipient: u64) -> IssueCertificate {
    IssueCertificate { asset_address, recipient, issuer: ISSUER, issuer_funds: 3 }
}

fn issue(ledger: &mut Ledger, asset_address: u64, recipient: u64) -> Result<(), LedgerError> {
    ledger.issue_certificate(
        accounts_for(asset_address, recipient),
        String::from("ipfs://abc"),
        String::from("Course101"),
        String::from("CERT"),
        String::from("deadbeef"),
    )
}

#[test]
fn issuance_mints_exactly_one_and_drops_mint_authority() {
    let mut ledger = Ledger::new();
    assert_eq!(issue(&mut ledger, ASSET, RECIPIENT), Ok(()));
    let asset = ledger.get_asset(ASSET).expect("asset must exist");
    assert_eq!(asset.supply, 1);
    assert_eq!(asset.mint_authority, None);
    assert_eq!(asset.decimals, 0);
    assert_eq!(asset.freeze_authority, Some(ISSUER));
}

#[test]
fn issuance_freezes_holder_owned_by_recipient() {
    let mut ledger = Ledger::new();
    assert_eq!(issue(&mut ledger, ASSET, RECIPIENT), Ok(()));
    let holder = ledger.get_holder(ASSET, RECIPIENT).expect("holder must exist");
    assert!(holder.frozen);
    assert_eq!(holder.owner, RECIPIENT);
    assert_eq!(holder.balance, 1);
}

#[test]
fn issuance_attaches_metadata_once_with_supplied_fields() {
    let mut ledger = Ledger::new();
    assert_eq!(issue(&mut ledger, ASSET, RECIPIENT), Ok(()));
    let metadata = ledger.get_metadata(ASSET).expect("metadata must exist");
    assert_eq!(metadata.name, "Course101");
    assert_eq!(metadata.symbol, "CERT");
    assert_eq!(metadata.content_uri, "ipfs://abc");
    assert_eq!(metadata.vc_hash, "deadbeef");
    assert_eq!(metadata.update_authority, ISSUER);
    assert!(metadata.mutable);
}

#[test]
fn reissuing_same_asset_address_fails_without_double_mint() {
    let mut ledger = Ledger::new();
    assert_eq!(issue(&mut ledger, ASSET, RECIPIENT), Ok(()));
    assert_eq!(issue(&mut ledger, ASSET, RECIPIENT), Err(LedgerError::AlreadyInitialized));
    assert_eq!(issue(&mut ledger, ASSET, 33), Err(LedgerError::AlreadyInitialized));
    let asset = ledger.get_asset(ASSET).expect("asset must exist");
    assert_eq!(asset.supply, 1);
    assert!(ledger.get_holder(ASSET, 33).is_none());
}

#[test]
fn end_to_end_certificate_is_soulbound() {
    let mut ledger = Ledger::new();
    assert_eq!(issue(&mut ledger, ASSET, RECIPIENT), Ok(()));
    // The frozen holder record blocks any transfer out of the recipient.
    assert_eq!(
        ledger.transfer_one(ASSET, RECIPIENT, 33, RECIPIENT),
        Err(LedgerError::AccountFrozen)
    );
    // The dropped mint capability blocks any further minting.
    assert_eq!(
        ledger.mint_one(ASSET, RECIPIENT, ISSUER),
        Err(LedgerError::MintAuthorityRevoked)
    );
    let asset = ledger.get_asset(ASSET).expect("asset must exist");
    assert_eq!(asset.supply, 1);
    let holder = ledger.get_holder(ASSET, RECIPIENT).expect("holder must exist");
    assert_eq!(holder.balance, 1);
}

#[test]
fn two_issuances_for_distinct_pairs_are_independent() {
    let mut ledger = Ledger::new();
    assert_eq!(issue(&mut ledger, 101, 22), Ok(()));
    assert_eq!(issue(&mut ledger, 102, 23), Ok(()));
    for (asset_address, recipient) in [(101, 22), (102, 23)] {
        let asset = ledger.get_asset(asset_address).expect("asset must exist");
        assert_eq!(
            asset,
            Asset {
                address: asset_address,
                decimals: 0,
                supply: 1,
                mint_authority: None,
                freeze_authority: Some(ISSUER),
            }
        );
        let holder = ledger.get_holder(asset_address, recipient).expect("holder must exist");
        assert_eq!(
            holder,
            HolderRecord { asset: asset_address, owner: recipient, balance: 1, frozen: true }
        );
    }
    assert!(ledger.get_holder(101, 23).is_none());
    assert!(ledger.get_holder(102, 22).is_none());
}

#[test]
fn failing_metadata_step_leaves_no_partially_minted_asset() {
    let mut ledger = Ledger::new();
    let steps = vec![
        Step::CreateAsset { address: ASSET, issuer: ISSUER },
        Step::BindHolder { asset: ASSET, recipient: RECIPIENT },
        Step::MintOne { asset: ASSET, owner: RECIPIENT, caller: ISSUER },
        Step::AttachMetadata {
            asset: ASSET,
            caller: 99,  // not the mint authority: the attach step is rejected
            name: String::from("Course101"),
            symbol: String::from("CERT"),
            content_uri: String::from("ipfs://abc"),
            vc_hash: String::from("deadbeef"),
        },
        Step::RevokeMintAuthority { asset: ASSET, caller: ISSUER },
        Step::ReassignFreezeAndFreeze { asset: ASSET, owner: RECIPIENT, caller: ISSUER },
    ];
    assert_eq!(ledger.run_atomic(&steps), Err(LedgerError::Unauthorized));
    // The whole unit was discarded: no asset, holder or metadata exists.
    assert!(!ledger.contains_asset(ASSET));
    assert!(ledger.get_asset(ASSET).is_none());
    assert!(ledger.get_holder(ASSET, RECIPIENT).is_none());
    assert!(ledger.get_metadata(ASSET).is_none());
}

#[test]
fn atomic_unit_of_all_six_steps_issues_the_certificate() {
    let mut ledger = Ledger::new();
    let steps = vec![
        Step::CreateAsset { address: ASSET, issuer: ISSUER },
        Step::BindHolder { asset: ASSET, recipient: RECIPIENT },
        Step::MintOne { asset: ASSET, owner: RECIPIENT, caller: ISSUER },
        Step::AttachMetadata {
            asset: ASSET,
            caller: ISSUER,
            name: String::from("Course101"),
            symbol: String::from("CERT"),
            content_uri: String::from("ipfs://abc"),
            vc_hash: String::from("deadbeef"),
        },
        Step::RevokeMintAuthority { asset: ASSET, caller: ISSUER },
        Step::ReassignFreezeAndFreeze { asset: ASSET, owner: RECIPIENT, caller: ISSUER },
    ];
    assert_eq!(ledger.run_atomic(&steps), Ok(()));
    let asset = ledger.get_asset(ASSET).expect("asset must exist");
    assert_eq!(asset.supply, 1);
    assert_eq!(asset.mint_authority, None);
    let holder = ledger.get_holder(ASSET, RECIPIENT).expect("holder must exist");
    assert!(holder.frozen);
}

#[test]
fn missing_references_are_rejected_before_anything_runs() {
    let mut ledger = Ledger::new();
    for accounts in [
        IssueCertificate { asset_address: 0, recipient: RECIPIENT, issuer: ISSUER, issuer_funds: 3 },
        IssueCertificate { asset_address: ASSET, recipient: 0, issuer: ISSUER, issuer_funds: 3 },
        IssueCertificate { asset_address: ASSET, recipient: RECIPIENT, issuer: 0, issuer_funds: 3 },
    ] {
        assert_eq!(
            ledger.issue_certificate(
                accounts,
                String::from("ipfs://abc"),
                String::from("Course101"),
                String::from("CERT"),
                String::from("deadbeef"),
            ),
            Err(LedgerError::ValidationError)
        );
    }
    assert!(!ledger.contains_asset(ASSET));
}

#[test]
fn underfunded_issuer_is_rejected_before_anything_runs() {
    let mut ledger = Ledger::new();
    let accounts =
        IssueCertificate { asset_address: ASSET, recipient: RECIPIENT, issuer: ISSUER, issuer_funds: 2 };
    assert_eq!(
        ledger.issue_certificate(
            accounts,
            String::from("ipfs://abc"),
            String::from("Course101"),
            String::from("CERT"),
            String::from("deadbeef"),
        ),
        Err(LedgerError::InsufficientFunds)
    );
    assert!(!ledger.contains_asset(ASSET));
}
