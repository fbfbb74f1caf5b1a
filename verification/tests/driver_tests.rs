use contract_client::driver::{
    driver_step, next_action, DriverAction, DriverEvent, DriverState, FinalizedEffect,
};
use contract_client::encode::encode_value;
use contract_client::layout::{TypeLayout, Width};
use contract_client::outcome::{interpret_effect, report_exit_code, Report};
use contract_client::transaction::{
    build_deploy, build_init, build_update, expiry_after, ContractAddress, TransactionCommon,
    TransactionIntent,
};
use contract_client::values::StructuredValue;

fn chars(s: &str) -> Vec<char> {
    s.chars().collect()
}

fn common() -> TransactionCommon {
    TransactionCommon { sender: vec![9; 32], nonce: 4, expiry: 1000, energy: 10000 }
}

#[test]
fn happy_path_walks_built_signed_submitted_finalized() {
    let s = DriverState::Built;
    assert_eq!(next_action(&s), DriverAction::Sign);
    let s = driver_step(s, DriverEvent::SigningDone);
    assert_eq!(s, DriverState::Signed);
    assert_eq!(next_action(&s), DriverAction::Submit);
    let s = driver_step(s, DriverEvent::SubmitAccepted);
    assert_eq!(s, DriverState::Submitted);
    assert_eq!(next_action(&s), DriverAction::AwaitFinality);
    let eff = FinalizedEffect::ContractInitialized {
        address: ContractAddress { index: 5, subindex: 0 },
    };
    let s = driver_step(s, DriverEvent::FinalityReported(eff));
    assert!(matches!(s, DriverState::Finalized(_)));
    assert_eq!(next_action(&s), DriverAction::Report);
}

#[test]
fn submission_happens_at_most_once_and_rejection_ends_the_run() {
    // Only the signed phase prescribes a submission.
    for s in [DriverState::Built, DriverState::Submitted] {
        assert_ne!(next_action(&s), DriverAction::Submit);
    }
    let s = driver_step(DriverState::Signed, DriverEvent::SubmitRejected(chars("nonce reuse")));
    match &s {
        DriverState::Failed(e) => assert_eq!(e.reason, chars("nonce reuse")),
        other => panic!("unexpected state {:?}", other),
    }
    assert_eq!(next_action(&s), DriverAction::Stop);
    // A failed attempt is terminal.
    let s2 = driver_step(s, DriverEvent::SubmitAccepted);
    assert!(matches!(s2, DriverState::Failed(_)));
}

#[test]
fn ledger_rejection_reports_the_reason_and_a_successful_exit() {
    let eff = FinalizedEffect::NoneWithReason { reject_reason: chars("SerializationFailure") };
    let report = interpret_effect(eff, None).unwrap();
    assert_eq!(report, Report::Rejected(chars("SerializationFailure")));
    assert_eq!(report_exit_code(&report), 0);
}

#[test]
fn view_invocation_decodes_with_the_return_layout() {
    // The parameter layout and the return layout disagree; the report
    // must come from the return layout.
    let param_layout = TypeLayout::Struct(vec![]);
    let return_layout = TypeLayout::Text(Width::B1);
    let returned = encode_value(&StructuredValue::Text(chars("url")), &return_layout).unwrap();
    let empty_param = encode_value(&StructuredValue::Object(vec![]), &param_layout).unwrap();
    assert_eq!(empty_param.len(), 0);
    let eff = FinalizedEffect::ContractUpdated {
        sub_effects: Vec::new(),
        return_value: Some(returned),
    };
    let report = interpret_effect(eff, Some(&return_layout)).unwrap();
    assert_eq!(report, Report::ViewResult(StructuredValue::Text(chars("url"))));
}

#[test]
fn module_deploy_report_is_the_reference_in_hex() {
    let eff = FinalizedEffect::ModuleDeployed { module_ref: vec![0x0f, 0xa0] };
    assert_eq!(interpret_effect(eff, None).unwrap(), Report::ModuleRef(chars("0fa0")));
}

#[test]
fn builders_copy_their_arguments_and_default_the_amount_to_zero() {
    let t = build_deploy(common(), vec![1, 2, 3]);
    assert_eq!(t.intent, TransactionIntent::DeployModule { module: vec![1, 2, 3] });
    let t = build_init(common(), vec![7; 32], chars("init_c"), Vec::new(), None);
    match t.intent {
        TransactionIntent::InitContract { amount, module_ref, .. } => {
            assert_eq!(amount, 0);
            assert_eq!(module_ref, vec![7; 32]);
        }
        other => panic!("unexpected intent {:?}", other),
    }
    let t = build_update(
        common(),
        ContractAddress { index: 1, subindex: 2 },
        chars("c"),
        chars("mint"),
        vec![9],
        Some(25),
    );
    match t.intent {
        TransactionIntent::UpdateContract { amount, address, .. } => {
            assert_eq!(amount, 25);
            assert_eq!(address, ContractAddress { index: 1, subindex: 2 });
        }
        other => panic!("unexpected intent {:?}", other),
    }
}

#[test]
fn expiry_saturates_at_the_largest_time() {
    assert_eq!(expiry_after(100, 300), 400);
    assert_eq!(expiry_after(u64::MAX - 10, 300), u64::MAX);
}
