//! The submit/await-finalization state machine.
//!
//! The decisions of a transaction attempt live here as a pure step
//! function from state and event to the next state; the surrounding
//! program performs each prescribed action (sign, submit, await) and
//! hands the resulting event back.  Submission happens at most once per
//! attempt, and a finalized or failed attempt is terminal.

use crate::transaction::ContractAddress;
use vstd::prelude::*;

verus! {

/// The node rejected the submission outright; the attempt ends.
#[derive(Debug, PartialEq, Eq)]
pub struct SubmissionError {
    pub reason: Vec<char>,
}

/// What the ledger reports a finalized transaction did.
#[derive(Debug, PartialEq, Eq)]
pub enum FinalizedEffect {
    ModuleDeployed { module_ref: Vec<u8> },
    ContractInitialized { address: ContractAddress },
    ContractUpdated { sub_effects: Vec<Vec<char>>, return_value: Option<Vec<u8>> },
    NoneWithReason { reject_reason: Vec<char> },
}

/// The phases of one transaction attempt.
#[derive(Debug, PartialEq, Eq)]
pub enum DriverState {
    Built,
    Signed,
    Submitted,
    Finalized(FinalizedEffect),
    Failed(SubmissionError),
}

/// What the outside world reports back after an action.
#[derive(Debug, PartialEq, Eq)]
pub enum DriverEvent {
    SigningDone,
    SubmitAccepted,
    SubmitRejected(Vec<char>),
    FinalityReported(FinalizedEffect),
}

/// What the surrounding program must do next.
#[derive(Clone, Copy, Debug, PartialEq, Eq, Structural)]
pub enum DriverAction {
    /// Sign the built transaction with the account's key material.
    Sign,
    /// Submit the signed transaction; at most once per attempt.
    Submit,
    /// Await the node until it reports the transaction finalized, with no
    /// client-side deadline.
    AwaitFinality,
    /// Report the finalized effect.
    Report,
    /// Nothing is left to do.
    Stop,
}

/// The action each phase prescribes.  Submission is prescribed from the
/// signed phase alone: at-most-once submission.
pub fn next_action(s: &DriverState) -> (a: DriverAction)
    ensures
        a == (match s {
            DriverState::Built => DriverAction::Sign,
            DriverState::Signed => DriverAction::Submit,
            DriverState::Submitted => DriverAction::AwaitFinality,
            DriverState::Finalized(_) => DriverAction::Report,
            DriverState::Failed(_) => DriverAction::Stop,
        }),
        (a == DriverAction::Submit) <==> (s is Signed),
{
    match s {
        DriverState::Built => DriverAction::Sign,
        DriverState::Signed => DriverAction::Submit,
        DriverState::Submitted => DriverAction::AwaitFinality,
        DriverState::Finalized(_) => DriverAction::Report,
        DriverState::Failed(_) => DriverAction::Stop,
    }
}

/// One transition of the attempt.  Only the expected event of each phase
/// moves the machine; any other event leaves the state unchanged, and the
/// finalized and failed phases are terminal.
pub fn driver_step(s: DriverState, ev: DriverEvent) -> (r: DriverState)
    ensures
        r == (match (s, ev) {
            (DriverState::Built, DriverEvent::SigningDone) => DriverState::Signed,
            (DriverState::Signed, DriverEvent::SubmitAccepted) => DriverState::Submitted,
            (DriverState::Signed, DriverEvent::SubmitRejected(why)) => DriverState::Failed(
                SubmissionError { reason: why },
            ),
            (DriverState::Submitted, DriverEvent::FinalityReported(eff)) => DriverState::Finalized(
                eff,
            ),
            (other, _) => other,
        }),
        s is Finalized ==> r == s,
        s is Failed ==> r == s,
{
    match (s, ev) {
        (DriverState::Built, DriverEvent::SigningDone) => DriverState::Signed,
        (DriverState::Signed, DriverEvent::SubmitAccepted) => DriverState::Submitted,
        (DriverState::Signed, DriverEvent::SubmitRejected(why)) => DriverState::Failed(
            SubmissionError { reason: why },
        ),
        (DriverState::Submitted, DriverEvent::FinalityReported(eff)) => DriverState::Finalized(
            eff,
        ),
        (other, _) => other,
    }
}

} // verus!
