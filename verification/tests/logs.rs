use alkanes_transfer::logs::{append_log, get_logs, LogEntry, MAX_LOGS};

fn events(logs: &[LogEntry]) -> Vec<(u64, String)> {
    logs.iter().map(|e| (e.timestamp_nanos, e.event.clone())).collect()
}

#[test]
fn log_keeps_entries_in_order() {
    let mut logs = Vec::new();
    append_log(&mut logs, 1, "a".to_string());
    append_log(&mut logs, 2, "b".to_string());
    assert_eq!(events(&logs), vec![(1, "a".to_string()), (2, "b".to_string())]);
}

#[test]
fn log_drops_the_oldest_beyond_the_limit() {
    let mut logs = Vec::new();
    for i in 0..(MAX_LOGS as u64 + 3) {
        append_log(&mut logs, i, format!("e{}", i));
    }
    assert_eq!(logs.len(), MAX_LOGS);
    assert_eq!(logs[0].timestamp_nanos, 3);
    assert_eq!(logs[MAX_LOGS - 1].timestamp_nanos, MAX_LOGS as u64 + 2);
}

#[test]
fn log_that_is_too_long_is_cut_to_the_limit() {
    let mut logs: Vec<LogEntry> = (0..(MAX_LOGS as u64 + 10))
        .map(|i| LogEntry { timestamp_nanos: i, event: String::new() })
        .collect();
    append_log(&mut logs, 9999, "last".to_string());
    assert_eq!(logs.len(), MAX_LOGS);
    assert_eq!(logs[0].timestamp_nanos, 11);
    assert_eq!(logs[MAX_LOGS - 1].event, "last");
}

#[test]
fn pages_of_the_log() {
    let mut logs = Vec::new();
    for i in 0..10u64 {
        append_log(&mut logs, i, format!("e{}", i));
    }
    assert_eq!(events(&get_logs(&logs, 2, 3)), vec![(2, "e2".to_string()), (3, "e3".to_string()), (4, "e4".to_string())]);
    assert_eq!(get_logs(&logs, 8, 5).len(), 2);
    assert_eq!(get_logs(&logs, 10, 5).len(), 0);
    assert_eq!(get_logs(&logs, 11, 5).len(), 0);
    assert_eq!(get_logs(&logs, 0, 0).len(), 0);
    assert_eq!(get_logs(&logs, 0, u64::MAX).len(), 10);
    assert_eq!(get_logs(&logs, u64::MAX, u64::MAX).len(), 0);
    assert_eq!(get_logs(&logs, 3, u64::MAX)[0].timestamp_nanos, 3);
}
