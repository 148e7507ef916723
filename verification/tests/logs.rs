use hsr_frontend::logs::{
    format_log_entry, level_label, line_len, should_record, LogBuffer, LogEntry, LogHistory,
    LogLevel, MAX_BUFFER, MAX_LOGS,
};

fn entry(level: LogLevel, target: &str, message: &str) -> LogEntry {
    LogEntry { timestamp_ms: 0, level, target: target.to_string(), message: message.to_string() }
}

#[test]
fn labels_and_lines() {
    assert_eq!(level_label(LogLevel::Warn), "WARN");
    assert_eq!(level_label(LogLevel::Trace), "TRACE");
    assert_eq!(format_log_entry(&entry(LogLevel::Info, "app", "hi")), "INFO   app  hi");
    assert_eq!(format_log_entry(&entry(LogLevel::Error, "x", "")), "ERROR  x  ");
    assert_eq!(line_len(&entry(LogLevel::Info, "ab", "çd")), 4);
}

#[test]
fn noisy_targets_are_dropped() {
    assert!(should_record(LogLevel::Debug, "hsr_frontend::pages"));
    assert!(!should_record(LogLevel::Trace, "hsr_frontend"));
    assert!(!should_record(LogLevel::Info, "wgpu_core::device"));
    assert!(!should_record(LogLevel::Error, "ureq::unit"));
    assert!(!should_record(LogLevel::Warn, "h2"));
    assert!(should_record(LogLevel::Warn, "app::h2"));
    assert!(should_record(LogLevel::Error, ""));
}

#[test]
fn buffer_keeps_the_latest() {
    let mut buffer = LogBuffer::new();
    for i in 0..(MAX_BUFFER + 3) {
        buffer.push(entry(LogLevel::Info, "t", &i.to_string()));
    }
    let drained = buffer.drain();
    assert_eq!(drained.len(), MAX_BUFFER);
    assert_eq!(drained[0].message, "3");
    assert_eq!(drained[MAX_BUFFER - 1].message, (MAX_BUFFER + 2).to_string());
    assert!(buffer.drain().is_empty());
}

#[test]
fn history_tracks_widest_first() {
    let mut history = LogHistory::new();
    history.ingest(vec![entry(LogLevel::Info, "a", "xx"), entry(LogLevel::Info, "bb", "yyyy"), entry(LogLevel::Info, "ccc", "yyy")]);
    assert_eq!(history.longest, 1);
    assert_eq!(history.longest_len, 6);
    history.ingest(vec![entry(LogLevel::Info, "", "zzzzzzz")]);
    assert_eq!(history.longest, 3);
    assert_eq!(history.longest_len, 7);
    history.clear();
    assert!(history.logs.is_empty());
    assert_eq!((history.longest, history.longest_len), (0, 0));
}

#[test]
fn history_trims_to_capacity() {
    let mut history = LogHistory::new();
    let mut batch = vec![entry(LogLevel::Info, "t", "a very long line that is widest")];
    for _ in 0..MAX_LOGS {
        batch.push(entry(LogLevel::Info, "t", "m"));
    }
    history.ingest(batch);
    assert_eq!(history.logs.len(), MAX_LOGS);
    assert_eq!(history.longest, 0);
    assert_eq!(history.longest_len, 2);
    history.ingest(vec![entry(LogLevel::Info, "t", "mm")]);
    assert_eq!(history.logs.len(), MAX_LOGS);
    assert_eq!(history.longest, MAX_LOGS - 1);
    assert_eq!(history.longest_len, 3);
}
