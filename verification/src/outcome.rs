//! Interpreting the ledger's finalized effect.

use crate::codec::{dec, DecR, DecodeError};
use crate::decode::decode_prefix;
use crate::driver::FinalizedEffect;
use crate::hex::{bytes_to_hex, hex_chars_of};
use crate::layout::TypeLayout;
use crate::transaction::ContractAddress;
use crate::values::StructuredValue;
use vstd::prelude::*;

verus! {

/// The human-facing report of a finalized transaction.  Every finalized
/// effect is reported as a successful run, a ledger-side rejection
/// included.
#[derive(Debug, PartialEq, Eq)]
pub enum Report {
    /// The module reference that deployment produced, as hex text.
    ModuleRef(Vec<char>),
    /// The address that initialization produced.
    Address(ContractAddress),
    /// The sub-effects of a state-changing update.
    UpdateOutcome { sub_effects: Vec<Vec<char>> },
    /// The decoded return value of a read-only invocation.
    ViewResult(StructuredValue),
    /// The ledger's rejection reason, verbatim.
    Rejected(Vec<char>),
}

/// Maps a finalized effect to its report.  A returned value of an update
/// is decoded with the method's return layout — not its parameter layout
/// — when the schema declares one; the return buffer may carry exactly
/// the value, so trailing bytes are not an error here.
pub fn interpret_effect(eff: FinalizedEffect, return_layout: Option<&TypeLayout>) -> (r: Result<
    Report,
    DecodeError,
>)
    ensures
        match eff {
            FinalizedEffect::ModuleDeployed { module_ref } => r matches Ok(
                Report::ModuleRef(h),
            ) && h@ == hex_chars_of(module_ref@),
            FinalizedEffect::ContractInitialized { address } => r == Ok::<Report, DecodeError>(
                Report::Address(address),
            ),
            FinalizedEffect::ContractUpdated { sub_effects, return_value } => match (
                return_value,
                return_layout,
            ) {
                (Some(bytes), Some(l)) => match dec(bytes@, l@) {
                    DecR::Value(v, _) => r matches Ok(Report::ViewResult(out)) && out@ == v,
                    DecR::Fail(e) => r == Err::<Report, DecodeError>(e),
                },
                _ => r == Ok::<Report, DecodeError>(Report::UpdateOutcome { sub_effects }),
            },
            FinalizedEffect::NoneWithReason { reject_reason } => r == Ok::<Report, DecodeError>(
                Report::Rejected(reject_reason),
            ),
        },
{
    match eff {
        FinalizedEffect::ModuleDeployed { module_ref } => Ok(Report::ModuleRef(bytes_to_hex(
            &module_ref,
        ))),
        FinalizedEffect::ContractInitialized { address } => Ok(Report::Address(address)),
        FinalizedEffect::ContractUpdated { sub_effects, return_value } => match (
            return_value,
            return_layout,
        ) {
            (Some(bytes), Some(l)) => match decode_prefix(&bytes, l) {
                Ok((v, _)) => Ok(Report::ViewResult(v)),
                Err(e) => Err(e),
            },
            _ => Ok(Report::UpdateOutcome { sub_effects }),
        },
        FinalizedEffect::NoneWithReason { reject_reason } => Ok(Report::Rejected(reject_reason)),
    }
}

/// A finalized outcome — a ledger-side rejection included — is a
/// successful run of the client: the process exit code is zero.
pub fn report_exit_code(r: &Report) -> (c: i32)
    ensures
        c == 0,
{
    let _ = r;
    0
}

} // verus!
