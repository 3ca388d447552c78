use pty_core::registry::SessionRegistry;
use pty_core::SessionError;

#[test]
fn unknown_id_is_not_found() {
    let reg = SessionRegistry::new();
    let r = reg.handle_for(&"tab-1".to_string());
    assert!(matches!(r, Err(SessionError::NotFound)));
    match r {
        Err(e) => assert_eq!(e.message(), "PTY not found"),
        Ok(_) => panic!("expected NotFound"),
    }
}

#[test]
fn spawn_then_lookup() {
    let mut reg = SessionRegistry::new();
    let h = reg.spawn(&"tab-1".to_string());
    assert_eq!(h, Some(0));
    assert_eq!(reg.handle_for(&"tab-1".to_string()).unwrap(), 0);
    assert!(matches!(
        reg.handle_for(&"tab-2".to_string()),
        Err(SessionError::NotFound)
    ));
}

#[test]
fn spawn_twice_is_noop() {
    let mut reg = SessionRegistry::new();
    let first = reg.spawn(&"tab-1".to_string());
    assert_eq!(first, Some(0));
    let second = reg.spawn(&"tab-1".to_string());
    assert!(second.is_none());
    assert_eq!(reg.handle_for(&"tab-1".to_string()).unwrap(), 0);
}

#[test]
fn killed_id_is_not_found() {
    let mut reg = SessionRegistry::new();
    reg.spawn(&"tab-1".to_string());
    reg.kill(&"tab-1".to_string());
    assert!(matches!(
        reg.handle_for(&"tab-1".to_string()),
        Err(SessionError::NotFound)
    ));
}

#[test]
fn kill_of_absent_id_is_quiet() {
    let mut reg = SessionRegistry::new();
    reg.kill(&"never-there".to_string());
    assert!(matches!(
        reg.handle_for(&"never-there".to_string()),
        Err(SessionError::NotFound)
    ));
}

#[test]
fn respawn_gets_fresh_handle() {
    let mut reg = SessionRegistry::new();
    let h1 = reg.spawn(&"tab-1".to_string()).unwrap();
    reg.kill(&"tab-1".to_string());
    let h2 = reg.spawn(&"tab-1".to_string()).unwrap();
    assert_ne!(h1, h2);
}

#[test]
fn sessions_are_independent() {
    let mut reg = SessionRegistry::new();
    let h1 = reg.spawn(&"a".to_string()).unwrap();
    let h2 = reg.spawn(&"b".to_string()).unwrap();
    assert_ne!(h1, h2);
    reg.kill(&"a".to_string());
    assert!(reg.handle_for(&"a".to_string()).is_err());
    assert_eq!(reg.handle_for(&"b".to_string()).unwrap(), h2);
}

#[test]
fn error_messages() {
    assert_eq!(SessionError::NotFound.message(), "PTY not found");
    assert_eq!(
        SessionError::LockFailure.message(),
        "PTY manager lock poisoned"
    );
    assert_eq!(
        SessionError::IoFailure("broken pipe".to_string()).message(),
        "broken pipe"
    );
}
