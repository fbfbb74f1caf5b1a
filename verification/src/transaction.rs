//! Pure construction of transaction intents.

use vstd::prelude::*;

verus! {

/// The address of a deployed contract instance.
#[derive(Clone, Copy, Debug, PartialEq, Eq, Structural)]
pub struct ContractAddress {
    pub index: u64,
    pub subindex: u64,
}

/// The fields every transaction carries: sender address bytes, the
/// account nonce fetched once at the start of the run, the expiry time
/// and the energy budget.
#[derive(Debug, PartialEq, Eq)]
pub struct TransactionCommon {
    pub sender: Vec<u8>,
    pub nonce: u64,
    pub expiry: u64,
    pub energy: u64,
}

/// One of the three payload shapes, with the already-encoded parameter
/// where one applies.  Built once per invocation and consumed by signing.
#[derive(Debug, PartialEq, Eq)]
pub enum TransactionIntent {
    DeployModule { module: Vec<u8> },
    InitContract {
        module_ref: Vec<u8>,
        contract_name: Vec<char>,
        parameter: Vec<u8>,
        amount: u64,
    },
    UpdateContract {
        address: ContractAddress,
        contract_name: Vec<char>,
        method_name: Vec<char>,
        parameter: Vec<u8>,
        amount: u64,
    },
}

/// A built transaction, ready to sign.
#[derive(Debug, PartialEq, Eq)]
pub struct PreparedTransaction {
    pub common: TransactionCommon,
    pub intent: TransactionIntent,
}

/// An amount the operator may leave unspecified; absent means zero.
pub fn amount_or_zero(amount: Option<u64>) -> (r: u64)
    ensures
        r == (match amount {
            Some(a) => a,
            None => 0u64,
        }),
{
    match amount {
        Some(a) => a,
        None => 0,
    }
}

/// The expiry a run uses: the current time plus the expiry window,
/// saturating at the largest representable time.
pub fn expiry_after(now: u64, window: u64) -> (r: u64)
    ensures
        r as int == (if now + window <= u64::MAX {
            now + window
        } else {
            u64::MAX as int
        }),
{
    if now <= u64::MAX - window {
        now + window
    } else {
        u64::MAX
    }
}

/// Builds a module-deploy intent; construction cannot fail.
pub fn build_deploy(common: TransactionCommon, module: Vec<u8>) -> (r: PreparedTransaction)
    ensures
        r.common == common,
        r.intent == (TransactionIntent::DeployModule { module }),
{
    PreparedTransaction { common, intent: TransactionIntent::DeployModule { module } }
}

/// Builds an instance-init intent; an absent amount means zero.
pub fn build_init(
    common: TransactionCommon,
    module_ref: Vec<u8>,
    contract_name: Vec<char>,
    parameter: Vec<u8>,
    amount: Option<u64>,
) -> (r: PreparedTransaction)
    ensures
        r.common == common,
        r.intent == (TransactionIntent::InitContract {
            module_ref,
            contract_name,
            parameter,
            amount: match amount {
                Some(a) => a,
                None => 0u64,
            },
        }),
{
    let amount = amount_or_zero(amount);
    PreparedTransaction {
        common,
        intent: TransactionIntent::InitContract { module_ref, contract_name, parameter, amount },
    }
}

/// Builds an instance-update intent; an absent amount means zero.
pub fn build_update(
    common: TransactionCommon,
    address: ContractAddress,
    contract_name: Vec<char>,
    method_name: Vec<char>,
    parameter: Vec<u8>,
    amount: Option<u64>,
) -> (r: PreparedTransaction)
    ensures
        r.common == common,
        r.intent == (TransactionIntent::UpdateContract {
            address,
            contract_name,
            method_name,
            parameter,
            amount: match amount {
                Some(a) => a,
                None => 0u64,
            },
        }),
{
    let amount = amount_or_zero(amount);
    PreparedTransaction {
        common,
        intent: TransactionIntent::UpdateContract {
            address,
            contract_name,
            method_name,
            parameter,
            amount,
        },
    }
}

} // verus!
