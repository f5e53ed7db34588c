use connect_core::fake::{split_alerts, CONNECTION_INTERRUPTED_CLOSE_CODE};

#[test]
fn interrupted_connection_uses_policy_violation_close_code() {
    assert_eq!(CONNECTION_INTERRUPTED_CLOSE_CODE, 1008);
}

#[test]
fn empty_alert_list_yields_no_alerts() {
    // The terminator-aware split: "" produces no entries, not one empty
    // entry.
    assert!(split_alerts("").is_empty());
}

#[test]
fn alerts_split_on_newlines() {
    assert_eq!(split_alerts("one"), vec![b"one".to_vec()]);
    assert_eq!(split_alerts("one\ntwo"), vec![b"one".to_vec(), b"two".to_vec()]);
    // A trailing newline does not create an empty last alert.
    assert_eq!(split_alerts("one\ntwo\n"), vec![b"one".to_vec(), b"two".to_vec()]);
}

#[test]
fn embedded_empty_alerts_are_kept() {
    // Two newlines in a row keep the empty alert between them.
    assert_eq!(
        split_alerts("one\n\ntwo"),
        vec![b"one".to_vec(), b"".to_vec(), b"two".to_vec()]
    );
}
