use kv::pb::CommandResponse;
use kv::KvError;

#[test]
fn error_statuses_follow_http() {
    let r = CommandResponse::from_error(KvError::NotFound("t".to_string(), "k".to_string()));
    assert_eq!(r.status, 404);
    let r = CommandResponse::from_error(KvError::InvalidCommand("x".to_string()));
    assert_eq!(r.status, 400);
    assert_eq!(r.message, "Invalid command: x");
    let r = CommandResponse::from_error(KvError::StorageInternal("disk".to_string()));
    assert_eq!(r.status, 500);
    assert_eq!(r.message, "Internal error: disk");
    let r = CommandResponse::from_error(KvError::FrameTooLarge);
    assert_eq!(r.status, 500);
}

#[test]
fn success_responses_are_200_with_empty_message() {
    let r = CommandResponse::from_value(5.into());
    assert_eq!(r.status, 200);
    assert_eq!(r.message, "");
    assert_eq!(r.values.len(), 1);
    assert!(r.pairs.is_empty());
}
