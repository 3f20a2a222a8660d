use certificate_nft::errors::LedgerError;
use certificate_nft::ledger::Ledger;

const ISSUER: u64 = 11;
const RECIPIENT: u64 = 22;
const OTHER: u64 = 33;
const ASSET: u64 = 101;

#[test]
fn create_asset_starts_unminted_with_both_capabilities() {
    let mut ledger = Ledger::new();
    assert_eq!(ledger.create_asset(ASSET, ISSUER), Ok(()));
    let asset = ledger.get_asset(ASSET).expect("asset must exist");
    assert_eq!(asset.address, ASSET);
    assert_eq!(asset.decimals, 0);
    assert_eq!(asset.supply, 0);
    assert_eq!(asset.mint_authority, Some(ISSUER));
    assert_eq!(asset.freeze_authority, Some(ISSUER));
}

#[test]
fn create_asset_rejects_an_occupied_address() {
    let mut ledger = Ledger::new();
    assert_eq!(ledger.create_asset(ASSET, ISSUER), Ok(()));
    assert_eq!(ledger.create_asset(ASSET, OTHER), Err(LedgerError::AlreadyExists));
    let asset = ledger.get_asset(ASSET).expect("asset must exist");
    assert_eq!(asset.mint_authority, Some(ISSUER));
}

#[test]
fn bind_holder_is_idempotent_and_starts_empty() {
    let mut ledger = Ledger::new();
    assert_eq!(ledger.create_asset(ASSET, ISSUER), Ok(()));
    assert_eq!(ledger.bind_holder(ASSET, RECIPIENT), Ok(()));
    let first = ledger.get_holder(ASSET, RECIPIENT).expect("holder must exist");
    assert_eq!(first.owner, RECIPIENT);
    assert_eq!(first.balance, 0);
    assert!(!first.frozen);
    assert_eq!(ledger.bind_holder(ASSET, RECIPIENT), Ok(()));
    let second = ledger.get_holder(ASSET, RECIPIENT).expect("holder must exist");
    assert_eq!(first, second);
}

#[test]
fn bind_holder_needs_a_stored_asset() {
    let mut ledger = Ledger::new();
    assert_eq!(ledger.bind_holder(ASSET, RECIPIENT), Err(LedgerError::ValidationError));
}

#[test]
fn mint_one_increases_supply_and_balance_by_one() {
    let mut ledger = Ledger::new();
    assert_eq!(ledger.create_asset(ASSET, ISSUER), Ok(()));
    assert_eq!(ledger.bind_holder(ASSET, RECIPIENT), Ok(()));
    assert_eq!(ledger.mint_one(ASSET, RECIPIENT, ISSUER), Ok(()));
    assert_eq!(ledger.get_asset(ASSET).unwrap().supply, 1);
    assert_eq!(ledger.get_holder(ASSET, RECIPIENT).unwrap().balance, 1);
    assert_eq!(ledger.mint_one(ASSET, RECIPIENT, ISSUER), Ok(()));
    assert_eq!(ledger.get_asset(ASSET).unwrap().supply, 2);
    assert_eq!(ledger.get_holder(ASSET, RECIPIENT).unwrap().balance, 2);
}

#[test]
fn mint_one_rejects_a_caller_without_the_capability() {
    let mut ledger = Ledger::new();
    assert_eq!(ledger.create_asset(ASSET, ISSUER), Ok(()));
    assert_eq!(ledger.bind_holder(ASSET, RECIPIENT), Ok(()));
    assert_eq!(ledger.mint_one(ASSET, RECIPIENT, OTHER), Err(LedgerError::AuthorityError));
    assert_eq!(ledger.get_asset(ASSET).unwrap().supply, 0);
}

#[test]
fn mint_one_needs_a_holder_record() {
    let mut ledger = Ledger::new();
    assert_eq!(ledger.create_asset(ASSET, ISSUER), Ok(()));
    assert_eq!(ledger.mint_one(ASSET, RECIPIENT, ISSUER), Err(LedgerError::NoSuchAccount));
}

#[test]
fn attach_metadata_rejects_a_second_record_and_a_stranger() {
    let mut ledger = Ledger::new();
    assert_eq!(ledger.create_asset(ASSET, ISSUER), Ok(()));
    assert_eq!(
        ledger.attach_metadata(
            ASSET,
            OTHER,
            &String::from("Course101"),
            &String::from("CERT"),
            &String::from("ipfs://abc"),
            &String::from("deadbeef"),
        ),
        Err(LedgerError::Unauthorized)
    );
    assert_eq!(
        ledger.attach_metadata(
            ASSET,
            ISSUER,
            &String::from("Course101"),
            &String::from("CERT"),
            &String::from("ipfs://abc"),
            &String::from("deadbeef"),
        ),
        Ok(())
    );
    assert_eq!(
        ledger.attach_metadata(
            ASSET,
            ISSUER,
            &String::from("Other"),
            &String::from("OTH"),
            &String::from("ipfs://def"),
            &String::from("cafe"),
        ),
        Err(LedgerError::AlreadyInitialized)
    );
    let metadata = ledger.get_metadata(ASSET).expect("metadata must exist");
    assert_eq!(metadata.name, "Course101");
}

#[test]
fn revoke_mint_authority_is_one_way() {
    let mut ledger = Ledger::new();
    assert_eq!(ledger.create_asset(ASSET, ISSUER), Ok(()));
    assert_eq!(ledger.revoke_mint_authority(ASSET, OTHER), Err(LedgerError::Unauthorized));
    assert_eq!(ledger.revoke_mint_authority(ASSET, ISSUER), Ok(()));
    assert_eq!(ledger.get_asset(ASSET).unwrap().mint_authority, None);
    // Dropping an already absent capability stays a no-op, for any caller.
    assert_eq!(ledger.revoke_mint_authority(ASSET, OTHER), Ok(()));
    assert_eq!(ledger.get_asset(ASSET).unwrap().mint_authority, None);
}

#[test]
fn freeze_needs_a_backed_holder_record() {
    let mut ledger = Ledger::new();
    assert_eq!(ledger.create_asset(ASSET, ISSUER), Ok(()));
    // No record at all for the pair.
    assert_eq!(
        ledger.reassign_freeze_and_freeze(ASSET, RECIPIENT, ISSUER),
        Err(LedgerError::NoSuchAccount)
    );
    // An empty record is refused as well.
    assert_eq!(ledger.bind_holder(ASSET, RECIPIENT), Ok(()));
    assert_eq!(
        ledger.reassign_freeze_and_freeze(ASSET, RECIPIENT, ISSUER),
        Err(LedgerError::NoSuchAccount)
    );
    assert!(!ledger.get_holder(ASSET, RECIPIENT).unwrap().frozen);
}

#[test]
fn freeze_reaffirms_the_capability_and_freezes_once() {
    let mut ledger = Ledger::new();
    assert_eq!(ledger.create_asset(ASSET, ISSUER), Ok(()));
    assert_eq!(ledger.bind_holder(ASSET, RECIPIENT), Ok(()));
    assert_eq!(ledger.mint_one(ASSET, RECIPIENT, ISSUER), Ok(()));
    assert_eq!(
        ledger.reassign_freeze_and_freeze(ASSET, RECIPIENT, OTHER),
        Err(LedgerError::Unauthorized)
    );
    assert_eq!(ledger.reassign_freeze_and_freeze(ASSET, RECIPIENT, ISSUER), Ok(()));
    assert!(ledger.get_holder(ASSET, RECIPIENT).unwrap().frozen);
    assert_eq!(ledger.get_asset(ASSET).unwrap().freeze_authority, Some(ISSUER));
    assert_eq!(
        ledger.reassign_freeze_and_freeze(ASSET, RECIPIENT, ISSUER),
        Err(LedgerError::AccountFrozen)
    );
}

#[test]
fn transfer_moves_a_unit_between_unfrozen_holders() {
    let mut ledger = Ledger::new();
    assert_eq!(ledger.create_asset(ASSET, ISSUER), Ok(()));
    assert_eq!(ledger.bind_holder(ASSET, RECIPIENT), Ok(()));
    assert_eq!(ledger.bind_holder(ASSET, OTHER), Ok(()));
    assert_eq!(ledger.mint_one(ASSET, RECIPIENT, ISSUER), Ok(()));
    assert_eq!(ledger.transfer_one(ASSET, RECIPIENT, OTHER, RECIPIENT), Ok(()));
    assert_eq!(ledger.get_holder(ASSET, RECIPIENT).unwrap().balance, 0);
    assert_eq!(ledger.get_holder(ASSET, OTHER).unwrap().balance, 1);
}

#[test]
fn frozen_record_blocks_minting_and_incoming_transfers() {
    let mut ledger = Ledger::new();
    assert_eq!(ledger.create_asset(ASSET, ISSUER), Ok(()));
    assert_eq!(ledger.bind_holder(ASSET, RECIPIENT), Ok(()));
    assert_eq!(ledger.bind_holder(ASSET, OTHER), Ok(()));
    assert_eq!(ledger.mint_one(ASSET, RECIPIENT, ISSUER), Ok(()));
    assert_eq!(ledger.mint_one(ASSET, OTHER, ISSUER), Ok(()));
    assert_eq!(ledger.reassign_freeze_and_freeze(ASSET, RECIPIENT, ISSUER), Ok(()));
    // The mint capability still exists, but the frozen record takes no unit.
    assert_eq!(ledger.mint_one(ASSET, RECIPIENT, ISSUER), Err(LedgerError::AccountFrozen));
    // A move into a frozen record is blocked as well.
    assert_eq!(
        ledger.transfer_one(ASSET, OTHER, RECIPIENT, OTHER),
        Err(LedgerError::AccountFrozen)
    );
    assert_eq!(ledger.get_holder(ASSET, RECIPIENT).unwrap().balance, 1);
    assert_eq!(ledger.get_holder(ASSET, OTHER).unwrap().balance, 1);
}

#[test]
fn transfer_rejects_a_stranger_an_empty_source_and_a_missing_record() {
    let mut ledger = Ledger::new();
    assert_eq!(ledger.create_asset(ASSET, ISSUER), Ok(()));
    assert_eq!(ledger.bind_holder(ASSET, RECIPIENT), Ok(()));
    assert_eq!(ledger.mint_one(ASSET, RECIPIENT, ISSUER), Ok(()));
    // Only the source owner may authorize the move.
    assert_eq!(
        ledger.transfer_one(ASSET, RECIPIENT, OTHER, OTHER),
        Err(LedgerError::Unauthorized)
    );
    // A missing source record is reported before anything moves.
    assert_eq!(
        ledger.transfer_one(ASSET, OTHER, RECIPIENT, OTHER),
        Err(LedgerError::NoSuchAccount)
    );
    // A missing destination record is reported as well.
    assert_eq!(
        ledger.transfer_one(ASSET, RECIPIENT, 44, RECIPIENT),
        Err(LedgerError::NoSuchAccount)
    );
    // An empty source cannot fund the move.
    assert_eq!(ledger.bind_holder(ASSET, OTHER), Ok(()));
    assert_eq!(
        ledger.transfer_one(ASSET, OTHER, RECIPIENT, OTHER),
        Err(LedgerError::InsufficientFunds)
    );
    assert_eq!(ledger.get_holder(ASSET, RECIPIENT).unwrap().balance, 1);
}
