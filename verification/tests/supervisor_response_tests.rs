use face_validator::response::{build_validation_response, format_u64};
use face_validator::supervisor::{AttemptOutcome, Supervisor, SupervisorStep};
use face_validator::types::{
    create_error_response, ApiResponse, BBox, ErrorCode, ProcessingError,
};

#[test]
fn supervisor_finishes_on_first_success() {
    let mut supervisor = Supervisor::new();
    let boxes = vec![BBox { x1: 0, y1: 0, x2: 10, y2: 10 }];
    match supervisor.on_outcome(AttemptOutcome::Success(boxes.clone())) {
        SupervisorStep::Done(Ok(result)) => assert_eq!(result, boxes),
        _ => panic!("expected immediate success"),
    }
}

#[test]
fn supervisor_backs_off_linearly_and_surfaces_last_failure() {
    let mut supervisor = Supervisor::new();
    let first = supervisor.on_outcome(AttemptOutcome::Failure(ProcessingError::InferenceError(
        String::from("transient"),
    )));
    assert!(matches!(first, SupervisorStep::RetryAfter(100)));
    let second = supervisor.on_outcome(AttemptOutcome::Failure(ProcessingError::InferenceError(
        String::from("again"),
    )));
    assert!(matches!(second, SupervisorStep::RetryAfter(200)));
    let last = supervisor.on_outcome(AttemptOutcome::Failure(ProcessingError::InferenceError(
        String::from("final"),
    )));
    match last {
        SupervisorStep::Done(Err(ProcessingError::InferenceError(message))) => {
            assert_eq!(message, "final");
        },
        _ => panic!("expected the last error to surface"),
    }
}

#[test]
fn supervisor_retries_timeouts_without_delay() {
    let mut supervisor = Supervisor::new();
    assert!(matches!(
        supervisor.on_outcome(AttemptOutcome::TimedOut),
        SupervisorStep::RetryAfter(0)
    ));
    assert!(matches!(
        supervisor.on_outcome(AttemptOutcome::TimedOut),
        SupervisorStep::RetryAfter(0)
    ));
    assert!(matches!(
        supervisor.on_outcome(AttemptOutcome::TimedOut),
        SupervisorStep::Done(Err(ProcessingError::Timeout))
    ));
}

#[test]
fn supervisor_wraps_crashes_as_internal_errors() {
    let mut supervisor = Supervisor::new();
    supervisor.on_outcome(AttemptOutcome::TimedOut);
    supervisor.on_outcome(AttemptOutcome::TimedOut);
    match supervisor.on_outcome(AttemptOutcome::Crashed(String::from("panicked"))) {
        SupervisorStep::Done(Err(ProcessingError::Internal(message))) => {
            assert_eq!(message, "panicked");
        },
        _ => panic!("expected an internal error"),
    }
}

#[test]
fn format_u64_renders_decimal() {
    assert_eq!(format_u64(0), "0");
    assert_eq!(format_u64(7), "7");
    assert_eq!(format_u64(10), "10");
    assert_eq!(format_u64(12345), "12345");
    assert_eq!(format_u64(u64::MAX), "18446744073709551615");
}

#[test]
fn validation_response_for_each_count() {
    let none = build_validation_response(0);
    assert!(!none.is_valid);
    assert_eq!(none.face_count, 0);
    assert_eq!(none.message, "No faces detected");

    let one = build_validation_response(1);
    assert!(one.is_valid);
    assert_eq!(one.face_count, 1);
    assert_eq!(one.message, "Valid single face detected");

    let many = build_validation_response(3);
    assert!(!many.is_valid);
    assert_eq!(many.face_count, 3);
    assert_eq!(many.message, "Multiple faces detected: 3");
}

#[test]
fn error_response_carries_code_message_and_details() {
    let with_details =
        create_error_response(ErrorCode::FileTooLarge, "File too large", Some("Maximum is 10MB"));
    match with_details {
        ApiResponse::Error(e) => {
            assert_eq!(e.code, ErrorCode::FileTooLarge);
            assert_eq!(e.message, "File too large");
            assert_eq!(e.details.as_deref(), Some("Maximum is 10MB"));
        },
        _ => panic!("expected an error response"),
    }
    let without_details = create_error_response(ErrorCode::NoFileProvided, "No file provided", None);
    match without_details {
        ApiResponse::Error(e) => {
            assert_eq!(e.code, ErrorCode::NoFileProvided);
            assert!(e.details.is_none());
        },
        _ => panic!("expected an error response"),
    }
}
