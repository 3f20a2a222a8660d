use crate::errors::LedgerError;
use crate::ledger::Ledger;
use crate::model::{
    spec_attach_metadata, spec_bind_holder, spec_create_asset, spec_mint_one,
    spec_reassign_freeze_and_freeze, spec_revoke_mint_authority, LedgerModel,
};
use vstd::prelude::*;

verus! {

/// One operation of an atomic unit of execution.
pub enum Step {
    /// Create a fresh indivisible asset with both capabilities held by
    /// `issuer`.
    CreateAsset { address: u64, issuer: u64 },
    /// Create or reuse the (asset, recipient) holder record.
    BindHolder { asset: u64, recipient: u64 },
    /// Mint exactly one unit into the (asset, owner) holder record.
    MintOne { asset: u64, owner: u64, caller: u64 },
    /// Attach the descriptive record to the asset.
    AttachMetadata {
        asset: u64,
        caller: u64,
        name: String,
        symbol: String,
        content_uri: String,
        vc_hash: String,
    },
    /// Drop the asset's mint capability for good.
    RevokeMintAuthority { asset: u64, caller: u64 },
    /// Reaffirm the freeze capability to the caller and freeze the
    /// (asset, owner) holder record.
    ReassignFreezeAndFreeze { asset: u64, owner: u64, caller: u64 },
}

/// What one step does to the ledger state.
pub open spec fn spec_step(m: LedgerModel, step: Step) -> Result<LedgerModel, LedgerError> {
    match step {
        Step::CreateAsset { address, issuer } => spec_create_asset(m, address, issuer),
        Step::BindHolder { asset, recipient } => spec_bind_holder(m, asset, recipient),
        Step::MintOne { asset, owner, caller } => spec_mint_one(m, asset, owner, caller),
        Step::AttachMetadata { asset, caller, name, symbol, content_uri, vc_hash } => {
            spec_attach_metadata(m, asset, caller, name, symbol, content_uri, vc_hash)
        },
        Step::RevokeMintAuthority { asset, caller } => {
            spec_revoke_mint_authority(m, asset, caller)
        },
        Step::ReassignFreezeAndFreeze { asset, owner, caller } => {
            spec_reassign_freeze_and_freeze(m, asset, owner, caller)
        },
    }
}

/// What a whole unit does: the steps in order, stopped by the first
/// failure.
pub open spec fn spec_run(m: LedgerModel, steps: Seq<Step>) -> Result<LedgerModel, LedgerError>
    decreases steps.len(),
{
    if steps.len() == 0 {
        Ok(m)
    } else {
        match spec_step(m, steps[0]) {
            Ok(m2) => spec_run(m2, steps.drop_first()),
            Err(e) => Err(e),
        }
    }
}

/// Applies one step to the ledger. Exactly `spec_step` happens; on failure
/// nothing changes.
pub fn apply_step(ledger: &mut Ledger, step: &Step) -> (result: Result<(), LedgerError>)
    requires
        old(ledger)@.wf(),
    ensures
        final(ledger)@.wf(),
        ({
            match spec_step(old(ledger)@, *step) {
                Ok(m) => result is Ok && final(ledger)@ == m,
                Err(e) => result == Err::<(), LedgerError>(e) && final(ledger)@ == old(ledger)@,
            }
        }),
{
    match step {
        Step::CreateAsset { address, issuer } => ledger.create_asset(*address, *issuer),
        Step::BindHolder { asset, recipient } => ledger.bind_holder(*asset, *recipient),
        Step::MintOne { asset, owner, caller } => ledger.mint_one(*asset, *owner, *caller),
        Step::AttachMetadata { asset, caller, name, symbol, content_uri, vc_hash } => {
            ledger.attach_metadata(*asset, *caller, name, symbol, content_uri, vc_hash)
        },
        Step::RevokeMintAuthority { asset, caller } => {
            ledger.revoke_mint_authority(*asset, *caller)
        },
        Step::ReassignFreezeAndFreeze { asset, owner, caller } => {
            ledger.reassign_freeze_and_freeze(*asset, *owner, *caller)
        },
    }
}

impl Ledger {
    /// Runs the steps as one atomic unit of execution: the steps apply in
    /// order on scratch state, and the result is committed only when every
    /// step succeeded. On the first failure the failing step's error comes
    /// back and the ledger is exactly as it was: no half-applied unit is
    /// ever observable.
    pub fn run_atomic(&mut self, steps: &Vec<Step>) -> (result: Result<(), LedgerError>)
        requires
            old(self)@.wf(),
        ensures
            final(self)@.wf(),
            ({
                match spec_run(old(self)@, steps@) {
                    Ok(m) => result is Ok && final(self)@ == m,
                    Err(e) => result == Err::<(), LedgerError>(e) && final(self)@ == old(self)@,
                }
            }),
    {
        let mut scratch = self.snapshot();
        proof {
            assert(steps@.skip(0) =~= steps@);
        }
        let mut i: usize = 0;
        while i < steps.len()
            invariant
                i <= steps@.len(),
                self@ == old(self)@,
                old(self)@.wf(),
                scratch@.wf(),
                spec_run(old(self)@, steps@) == spec_run(scratch@, steps@.skip(i as int)),
            decreases steps@.len() - i,
        {
            let ghost pre = scratch@;
            let step = &steps[i];
            match apply_step(&mut scratch, step) {
                Ok(()) => {
                    proof {
                        assert(steps@.skip(i as int)[0] == steps@[i as int]);
                        assert(spec_step(pre, steps@[i as int]) == Ok::<LedgerModel, LedgerError>(
                            scratch@,
                        ));
                        assert(steps@.skip(i as int).drop_first() =~= steps@.skip(i as int + 1));
                    }
                    i = i + 1;
                },
                Err(e) => {
                    proof {
                        assert(steps@.skip(i as int)[0] == steps@[i as int]);
                        assert(spec_step(pre, steps@[i as int]) == Err::<LedgerModel, LedgerError>(
                            e,
                        ));
                        assert(spec_run(old(self)@, steps@) == Err::<LedgerModel, LedgerError>(e));
                    }
                    return Err(e);
                },
            }
        }
        proof {
            assert(steps@.skip(i as int) =~= Seq::<Step>::empty());
            assert(spec_run(scratch@, steps@.skip(i as int)) == Ok::<LedgerModel, LedgerError>(
                scratch@,
            ));
        }
        *self = scratch;
        Ok(())
    }
}

} // verus!
