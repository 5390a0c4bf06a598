use comic_sync::sharing::SharingCore;

#[test]
fn broadcast_reaches_every_other_client() {
    let mut core = SharingCore::new();
    let a = core.connect();
    let b = core.connect();
    assert_ne!(a, b);
    let out = core.handle_frame(a, "{\"comic\":\"X\",\"page\":\"5\"}");
    assert_eq!(out.len(), 1);
    assert_eq!(out[0].target, b);
    assert_eq!(out[0].text, "{\"comic\":\"X\",\"page\":\"5\"}");
}

#[test]
fn query_answers_with_the_reported_page() {
    let mut core = SharingCore::new();
    let a = core.connect();
    let _b = core.connect();
    core.handle_frame(a, "{\"comic\":\"X\",\"page\":\"5\"}");
    let c = core.connect();
    let out = core.handle_frame(c, "{\"comic\":\"X\"}");
    assert_eq!(out.len(), 1);
    assert_eq!(out[0].target, c);
    assert_eq!(out[0].text, "{\"comic\":\"X\",\"page\":\"5\"}");
}

#[test]
fn query_without_prior_report_has_no_page_key() {
    let mut core = SharingCore::new();
    let a = core.connect();
    let out = core.handle_frame(a, "{\"comic\":\"X\"}");
    assert_eq!(out.len(), 1);
    assert_eq!(out[0].target, a);
    assert_eq!(out[0].text, "{\"comic\":\"X\"}");
}

#[test]
fn a_removed_client_gets_no_further_broadcasts() {
    let mut core = SharingCore::new();
    let a = core.connect();
    let b = core.connect();
    let c = core.connect();
    // a send to b failed: the transport reports it and b is dropped
    core.remove_client(b);
    let out = core.handle_frame(a, "{\"comic\":\"X\",\"page\":\"6\"}");
    assert_eq!(out.len(), 1);
    assert_eq!(out[0].target, c);
}

#[test]
fn malformed_frames_are_dropped() {
    let mut core = SharingCore::new();
    let a = core.connect();
    let _b = core.connect();
    assert!(core.handle_frame(a, "nonsense").is_empty());
    assert!(core.handle_frame(a, "{\"page\":\"5\"}").is_empty());
    // the ledger is untouched
    let out = core.handle_frame(a, "{\"comic\":\"X\"}");
    assert_eq!(out[0].text, "{\"comic\":\"X\"}");
}

#[test]
fn own_report_is_not_echoed_back() {
    let mut core = SharingCore::new();
    let a = core.connect();
    let out = core.handle_frame(a, "{\"comic\":\"X\",\"page\":\"5\"}");
    assert!(out.is_empty());
}

#[test]
fn shutdown_notifies_every_client_once() {
    let mut core = SharingCore::new();
    let a = core.connect();
    let b = core.connect();
    core.handle_frame(a, "{\"comic\":\"X\",\"page\":\"5\"}");
    let notices = core.shutdown_notices();
    assert_eq!(notices.len(), 2);
    assert_eq!(notices[0].target, a);
    assert_eq!(notices[1].target, b);
    assert_eq!(notices[0].text, "{\"disconnect\":true}");
    assert_eq!(notices[1].text, "{\"disconnect\":true}");
    assert_eq!(core.ledger_json(), "{\"X\":\"5\"}");
}

#[test]
fn restart_serves_the_persisted_ledger() {
    let mut core = SharingCore::restore("{\"X\":\"5\"}");
    let c = core.connect();
    let out = core.handle_frame(c, "{\"comic\":\"X\"}");
    assert_eq!(out.len(), 1);
    assert_eq!(out[0].text, "{\"comic\":\"X\",\"page\":\"5\"}");
}

#[test]
fn restart_round_trips_through_the_written_file() {
    let mut first = SharingCore::new();
    let a = first.connect();
    first.handle_frame(a, "{\"comic\":\"X\",\"page\":\"5\"}");
    first.handle_frame(a, "{\"comic\":\"Y\",\"page\":\"p 2\"}");
    first.handle_frame(a, "{\"comic\":\"X\",\"page\":\"7\"}");
    let saved = first.ledger_json();
    let mut second = SharingCore::restore(&saved);
    let c = second.connect();
    assert_eq!(
        second.handle_frame(c, "{\"comic\":\"X\"}")[0].text,
        "{\"comic\":\"X\",\"page\":\"7\"}"
    );
    assert_eq!(
        second.handle_frame(c, "{\"comic\":\"Y\"}")[0].text,
        "{\"comic\":\"Y\",\"page\":\"p 2\"}"
    );
}

#[test]
fn damaged_ledger_file_starts_empty() {
    let mut core = SharingCore::restore("not json at all");
    let c = core.connect();
    let out = core.handle_frame(c, "{\"comic\":\"X\"}");
    assert_eq!(out[0].text, "{\"comic\":\"X\"}");
}

#[test]
fn get_page_reads_the_ledger() {
    let mut core = SharingCore::new();
    let a = core.connect();
    core.handle_frame(a, "{\"comic\":\"X\",\"page\":\"5\"}");
    assert_eq!(core.get_page(&"X".to_string()).as_deref(), Some("5"));
    assert!(core.get_page(&"Y".to_string()).is_none());
}

#[test]
fn ids_increase_and_are_not_reused() {
    let mut core = SharingCore::new();
    let a = core.connect();
    let b = core.connect();
    core.remove_client(a);
    let c = core.connect();
    assert_eq!(a, 0);
    assert_eq!(b, 1);
    assert_eq!(c, 2);
}
