use saba::client::{ConnectionHandle, ConnectionKey, GrpcControllerRpc, ManagerError, ManagerState};

#[test]
fn grpc_endpoint_is_kept() {
    let rpc = GrpcControllerRpc::new("http://127.0.0.1:8080".to_string());
    assert_eq!(rpc.endpoint(), "http://127.0.0.1:8080");
}

#[test]
fn handles_report_their_endpoints() {
    let handle = ConnectionHandle::new("src-1".to_string(), "dst-1".to_string());
    assert_eq!(handle.src(), "src-1");
    assert_eq!(handle.dst(), "dst-1");
}

#[test]
fn manager_register_and_manage_connections() {
    let mut state = ManagerState::new();
    assert!(state.needs_init());
    state.mark_initialized();
    assert!(!state.needs_init());
    assert_eq!(state.check_register(), Ok(()));
    state.complete_register(7);
    assert_eq!(state.priority(), Some(7));
    let key = ConnectionKey::new("src-1".to_string(), "dst-1".to_string());
    assert_eq!(state.begin_open(&key), Ok(()));
    assert_eq!(state.begin_open(&key), Err(ManagerError::ConnectionExists));
    assert_eq!(state.begin_close(&key), Ok(()));
    assert_eq!(state.begin_deregister(), Ok(()));
    assert_eq!(state.priority(), None);
}

#[test]
fn manager_prevents_duplicate_registration() {
    let mut state = ManagerState::new();
    state.complete_register(1);
    assert_eq!(state.check_register(), Err(ManagerError::AlreadyRegistered));
    assert_eq!(state.priority(), Some(1));
    // a grant that arrives anyway is recorded
    state.complete_register(2);
    assert_eq!(state.priority(), Some(2));
}

#[test]
fn manager_deregistration_requires_closed_connections() {
    let mut state = ManagerState::new();
    state.complete_register(1);
    let key = ConnectionKey::new("node-a".to_string(), "node-b".to_string());
    state.begin_open(&key).unwrap();
    assert_eq!(state.begin_deregister(), Err(ManagerError::ConnectionsOpen));
    state.abort_open(&key);
    assert_eq!(state.begin_deregister(), Ok(()));
    assert_eq!(state.begin_deregister(), Err(ManagerError::NotRegistered));
}

#[test]
fn manager_prevents_unknown_connection_close() {
    let mut state = ManagerState::new();
    let key = ConnectionKey::new("s".to_string(), "d".to_string());
    assert_eq!(state.begin_close(&key), Err(ManagerError::UnknownConnection));
    assert_eq!(state.begin_open(&key), Err(ManagerError::NotRegistered));
}
