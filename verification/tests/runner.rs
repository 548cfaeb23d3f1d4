use xxfunc::runner::{classify_report, resolution_of_report, ExecutionError, ModuleRunner, ProcessReport};
use xxfunc::runtime::Resolution;

#[test]
fn exit_zero_is_success() {
    assert!(classify_report(ProcessReport::Exited(0)).is_ok());
    assert!(matches!(
        resolution_of_report(ProcessReport::Exited(0)),
        Resolution::Success
    ));
}

#[test]
fn exit_one_carries_the_status() {
    let r = classify_report(ProcessReport::Exited(1));
    assert!(matches!(r, Err(ExecutionError::NonZeroExit(1))));
}

#[test]
fn launch_failure_carries_the_cause() {
    let r = classify_report(ProcessReport::FailedToLaunch("no such file".to_string()));
    match r {
        Err(ExecutionError::LaunchFailure(msg)) => assert_eq!(msg, "no such file"),
        other => panic!("unexpected classification: {other:?}"),
    }
}

#[test]
fn termination_without_status_is_an_error() {
    let r = classify_report(ProcessReport::Terminated);
    assert!(matches!(r, Err(ExecutionError::Terminated)));
}

#[test]
fn failed_launch_resolves_to_launch_failure() {
    let r = resolution_of_report(ProcessReport::FailedToLaunch("denied".to_string()));
    match r {
        Resolution::Failure(ExecutionError::LaunchFailure(msg)) => assert_eq!(msg, "denied"),
        other => panic!("unexpected resolution: {other:?}"),
    }
}

#[test]
fn prepare_input_decodes_utf8() {
    let runner = ModuleRunner::new().unwrap();
    let s = runner.prepare_input(b"hello world".to_vec()).unwrap();
    assert_eq!(s, "hello world");
}

#[test]
fn prepare_input_rejects_invalid_utf8() {
    let runner = ModuleRunner::new().unwrap();
    let r = runner.prepare_input(vec![0xff, 0xfe, 0x01]);
    assert!(matches!(r, Err(ExecutionError::InvalidInput)));
}
