//! The event log: the latest entries, up to a fixed number.

use vstd::prelude::*;

verus! {

/// The number of entries that the log keeps.
pub const MAX_LOGS: usize = 500;

/// One event and when it happened.
#[derive(Debug)]
pub struct LogEntry {
    pub timestamp_nanos: u64,
    pub event: String,
}

/// An entry as a mathematical value.
pub struct LogEntryView {
    pub timestamp_nanos: u64,
    pub event: Seq<char>,
}

impl View for LogEntry {
    type V = LogEntryView;

    open spec fn view(&self) -> LogEntryView {
        LogEntryView { timestamp_nanos: self.timestamp_nanos, event: self.event@ }
    }
}

/// The entries of a log, each as a mathematical value.
pub open spec fn entry_views(logs: Seq<LogEntry>) -> Seq<LogEntryView> {
    logs.map_values(|e: LogEntry| e@)
}

/// The latest `MAX_LOGS` entries of a log.
pub open spec fn latest(logs: Seq<LogEntryView>) -> Seq<LogEntryView> {
    if logs.len() > MAX_LOGS {
        logs.skip(logs.len() - MAX_LOGS)
    } else {
        logs
    }
}

/// Adds an event to the log and drops the oldest entries beyond `MAX_LOGS`.
pub fn append_log(logs: &mut Vec<LogEntry>, timestamp_nanos: u64, event: String)
    ensures
        entry_views(final(logs)@) == latest(
            entry_views(old(logs)@).push(LogEntryView { timestamp_nanos, event: event@ }),
        ),
{
    let ghost all = entry_views(logs@).push(LogEntryView { timestamp_nanos, event: event@ });
    logs.push(LogEntry { timestamp_nanos, event });
    assert(entry_views(logs@) =~= all);
    assert(all.skip(0) =~= all);
    while logs.len() > MAX_LOGS
        invariant
            logs.len() <= all.len(),
            logs.len() >= MAX_LOGS || logs.len() == all.len(),
            entry_views(logs@) == all.skip(all.len() - logs.len()),
        decreases logs.len(),
    {
        let ghost before = entry_views(logs@);
        logs.remove(0);
        assert(entry_views(logs@) =~= before.skip(1));
        assert(before.skip(1) =~= all.skip(all.len() - logs.len()));
    }
}

/// The part of the log that a page holds: from `offset`, `limit` entries
/// or as many as there are.
pub open spec fn page(logs: Seq<LogEntryView>, offset: int, limit: int) -> Seq<LogEntryView> {
    if offset >= logs.len() {
        Seq::<LogEntryView>::empty()
    } else if offset + limit >= logs.len() {
        logs.skip(offset)
    } else {
        logs.subrange(offset, offset + limit)
    }
}

/// Copies of the entries of one page of the log.
pub fn get_logs(logs: &Vec<LogEntry>, offset: u64, limit: u64) -> (entries: Vec<LogEntry>)
    ensures
        entry_views(entries@) == page(entry_views(logs@), offset as int, limit as int),
{
    let mut entries: Vec<LogEntry> = Vec::new();
    let len: usize = logs.len();
    if offset >= len as u64 {
        assert(entry_views(entries@) =~= Seq::<LogEntryView>::empty());
        return entries;
    }
    let start: usize = offset as usize;
    let end: usize = if limit >= (len - start) as u64 {
        len
    } else {
        start + limit as usize
    };
    let mut i: usize = start;
    assert(entry_views(entries@) =~= entry_views(logs@).subrange(start as int, start as int));
    while i < end
        invariant
            start <= i <= end <= logs.len(),
            entry_views(entries@) == entry_views(logs@).subrange(start as int, i as int),
        decreases end - i,
    {
        let ghost before = entry_views(entries@);
        let entry = LogEntry {
            timestamp_nanos: logs[i].timestamp_nanos,
            event: logs[i].event.clone(),
        };
        assert(entry@ == logs@[i as int]@);
        entries.push(entry);
        i += 1;
        assert(entry_views(entries@) =~= before.push(logs@[i - 1]@));
        assert(entry_views(entries@) =~= entry_views(logs@).subrange(start as int, i as int));
    }
    assert(entry_views(logs@).skip(start as int) =~= entry_views(logs@).subrange(
        start as int,
        len as int,
    ));
    entries
}

} // verus!
