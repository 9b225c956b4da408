use sendme_core::{
    download_totals, receive_dir_name, send_dir_name, teardown_result, ActiveSession,
    ContentHash, SessionError, SessionManager, ShutdownOutcome,
};

fn session(dir: &str, ticket: &str) -> ActiveSession<u32> {
    ActiveSession { work_dir: dir.to_string(), endpoint: 7, ticket: ticket.to_string() }
}

#[test]
fn start_while_active_is_busy_and_keeps_ticket() {
    let mut m: SessionManager<u32> = SessionManager::new();
    assert!(!m.is_active());
    assert_eq!(m.ensure_idle(), Ok(()));
    assert_eq!(m.activate(session("w1", "ticket-one")), Ok(()));
    assert!(m.is_active());
    assert_eq!(m.ensure_idle(), Err(SessionError::SessionBusy));
    assert_eq!(m.activate(session("w2", "ticket-two")), Err(SessionError::SessionBusy));
    assert_eq!(m.ticket().unwrap(), "ticket-one");
}

#[test]
fn stop_takes_session_and_is_noop_when_idle() {
    let mut m: SessionManager<u32> = SessionManager::new();
    assert!(m.take_active().is_none());
    m.activate(session("w1", "t1")).unwrap();
    let s = m.take_active().unwrap();
    assert_eq!(s.work_dir, "w1");
    assert_eq!(s.ticket, "t1");
    assert!(!m.is_active());
    assert!(m.ticket().is_none());
    assert!(m.take_active().is_none());
    assert_eq!(m.activate(session("w3", "t3")), Ok(()));
}

#[test]
fn teardown_reports_first_failure() {
    assert_eq!(teardown_result(ShutdownOutcome::Completed, Ok(())), Ok(()));
    assert_eq!(
        teardown_result(ShutdownOutcome::TimedOut, Ok(())),
        Err(SessionError::TeardownTimeout)
    );
    assert_eq!(
        teardown_result(ShutdownOutcome::Failed("x".to_string()), Err("y".to_string())),
        Err(SessionError::ShutdownFailed("x".to_string()))
    );
    assert_eq!(
        teardown_result(ShutdownOutcome::Completed, Err("busy".to_string())),
        Err(SessionError::RemoveFailed("busy".to_string()))
    );
}

#[test]
fn send_dir_name_is_hex_of_suffix() {
    let suffix = [0xde, 0xad, 0xbe, 0xef, 0, 1, 2, 3, 4, 5, 6, 7, 8, 9, 0x0a, 0xff];
    assert_eq!(send_dir_name(&suffix), ".sendme-send-deadbeef000102030405060708090aff");
}

#[test]
fn receive_dir_name_depends_on_hash_only() {
    let h = ContentHash { bytes: [0xab; 32] };
    let name = receive_dir_name(&h);
    assert_eq!(name, format!(".sendme-get-{}", "ab".repeat(32)));
    assert_eq!(receive_dir_name(&ContentHash { bytes: [0xab; 32] }), name);
    assert_ne!(receive_dir_name(&ContentHash { bytes: [0x01; 32] }), name);
}

#[test]
fn download_totals_from_sizes() {
    let t = download_totals(&vec![10, 3, 5]);
    assert_eq!(t.total_size, 18);
    assert_eq!(t.file_count, 2);
    assert_eq!(t.expected_items, 4);
}

#[test]
fn download_totals_of_nothing() {
    let t = download_totals(&Vec::new());
    assert_eq!(t.total_size, 0);
    assert_eq!(t.file_count, 0);
    assert_eq!(t.expected_items, 1);
}

#[test]
fn download_totals_saturate() {
    let t = download_totals(&vec![u64::MAX, 1, 2]);
    assert_eq!(t.total_size, u64::MAX);
    assert_eq!(t.file_count, 2);
}
