use kvnode::kvnode::{
    listen_address, recovery_action, recovery_action_of_logs, RecoveryAction, DEFAULT_PORT,
};

#[test]
fn listen_address_defaults() {
    assert_eq!(listen_address(None, None), ("0.0.0.0".to_string(), 3000));
    assert_eq!(DEFAULT_PORT, 3000);
    assert_eq!(
        listen_address(Some("127.0.0.1".into()), Some(8080)),
        ("127.0.0.1".to_string(), 8080)
    );
    assert_eq!(listen_address(None, Some(1)), ("0.0.0.0".to_string(), 1));
}

#[test]
fn recovery_keeps_only_a_faithful_replay() {
    let old = "abc".to_string();
    assert_eq!(recovery_action(&old, Some(&"abc".to_string())), RecoveryAction::KeepReplayed);
    assert_eq!(recovery_action(&old, Some(&"abd".to_string())), RecoveryAction::RollBack);
    assert_eq!(recovery_action(&old, None), RecoveryAction::RollBack);
}

#[test]
fn recovery_compares_the_logs_by_digest() {
    let old: &[u8] = b"records";
    assert_eq!(recovery_action_of_logs(old, Some(b"records")), RecoveryAction::KeepReplayed);
    assert_eq!(recovery_action_of_logs(old, Some(b"recordz")), RecoveryAction::RollBack);
    assert_eq!(recovery_action_of_logs(old, Some(b"")), RecoveryAction::RollBack);
    assert_eq!(recovery_action_of_logs(old, None), RecoveryAction::RollBack);
    assert_eq!(recovery_action_of_logs(b"", Some(b"")), RecoveryAction::KeepReplayed);
}
