//! Writing and reading the log, filters, statuses and previous states.
use ribbon::{
    agent_statuses, find_previous_state, frame_line, EventFilter, EventType, LineStep, LogReader,
    RibbonEvent, StoreError, Timestamp,
};
use serde_json::Value;

fn name_of(et: EventType) -> String {
    et.label().to_lowercase()
}

fn type_of(name: &str) -> Option<EventType> {
    let all = [
        EventType::Submitted,
        EventType::Working,
        EventType::Committed,
        EventType::Completed,
        EventType::Failed,
        EventType::Blocked,
        EventType::Confused,
        EventType::Sudo,
        EventType::SudoGranted,
        EventType::SudoDenied,
        EventType::Hitl,
        EventType::HitlResolved,
        EventType::Note,
    ];
    all.into_iter().find(|et| name_of(*et) == name)
}

fn to_json(e: &RibbonEvent) -> String {
    let mut map = serde_json::Map::new();
    map.insert("secs".to_string(), Value::from(e.ts.secs));
    map.insert("nanos".to_string(), Value::from(e.ts.nanos));
    map.insert("agent".to_string(), Value::from(e.agent.as_str()));
    map.insert("type".to_string(), Value::from(name_of(e.event_type)));
    map.insert("task".to_string(), Value::from(e.task.clone()));
    map.insert("msg".to_string(), Value::from(e.msg.clone()));
    map.insert("commit".to_string(), Value::from(e.commit.clone()));
    serde_json::to_string(&Value::Object(map)).unwrap()
}

fn text_at(v: &Value, key: &str) -> Option<String> {
    v.get(key).and_then(|t| t.as_str()).map(|t| t.to_string())
}

fn from_json(line: &str) -> Result<RibbonEvent, String> {
    let v: Value = serde_json::from_str(line).map_err(|e| e.to_string())?;
    Ok(RibbonEvent {
        ts: Timestamp {
            secs: v.get("secs").and_then(|n| n.as_i64()).ok_or("no secs")?,
            nanos: v.get("nanos").and_then(|n| n.as_u64()).ok_or("no nanos")? as u32,
        },
        agent: text_at(&v, "agent").ok_or("no agent")?,
        event_type: text_at(&v, "type").and_then(|n| type_of(&n)).ok_or("no type")?,
        task: text_at(&v, "task"),
        msg: text_at(&v, "msg"),
        commit: text_at(&v, "commit"),
    })
}

fn append(log: &mut Vec<u8>, e: &RibbonEvent) {
    log.extend_from_slice(frame_line(&to_json(e)).as_bytes());
}

fn read_line(reader: &mut LogReader, warnings: &mut Vec<String>) -> Result<(), StoreError> {
    match reader.take_line() {
        LineStep::Blank => {}
        LineStep::Parse(text) => warnings.extend(reader.accept(from_json(&text))),
        LineStep::Unreadable(e) => return Err(e),
    }
    Ok(())
}

/// Reads a log in pieces of `size` bytes.
fn read(log: &[u8], size: usize) -> Result<(Vec<RibbonEvent>, Vec<String>), StoreError> {
    let mut reader = LogReader::new();
    let mut warnings = Vec::new();
    for piece in log.chunks(size) {
        let mut rest = piece;
        while !rest.is_empty() {
            let taken = reader.feed(rest);
            rest = &rest[taken.used..];
            if taken.complete {
                read_line(&mut reader, &mut warnings)?;
            }
        }
    }
    if reader.has_pending() {
        read_line(&mut reader, &mut warnings)?;
    }
    Ok((reader.into_events(), warnings))
}

fn same(a: &RibbonEvent, b: &RibbonEvent) -> bool {
    a.ts == b.ts
        && a.agent == b.agent
        && a.event_type == b.event_type
        && a.task == b.task
        && a.msg == b.msg
        && a.commit == b.commit
}

#[test]
fn test_append_and_read() {
    let mut log = Vec::new();

    let e1 = RibbonEvent::new("mosaic", EventType::Working).with_task("grpc migration");
    let e2 = RibbonEvent::new("mosaic", EventType::Completed)
        .with_task("grpc migration")
        .with_commit("abc123");

    append(&mut log, &e1);
    append(&mut log, &e2);

    let (events, warnings) = read(&log, 4096).unwrap();
    assert_eq!(events.len(), 2);
    assert_eq!(events[0].event_type, EventType::Working);
    assert_eq!(events[1].event_type, EventType::Completed);
    assert!(same(&events[0], &e1));
    assert!(same(&events[1], &e2));
    assert!(warnings.is_empty());
}

#[test]
fn test_filter_by_agent() {
    let events = [
        RibbonEvent::new("alice", EventType::Working),
        RibbonEvent::new("bob", EventType::Completed),
        RibbonEvent::new("alice", EventType::Completed),
    ];

    let filter = EventFilter::all().agent("alice");
    let results = filter.apply(events.iter());
    assert_eq!(results.len(), 2);
}

#[test]
fn test_filter_limit() {
    let events: Vec<RibbonEvent> = (0..10)
        .map(|i| RibbonEvent::new("agent", EventType::Note).with_msg(format!("msg {i}")))
        .collect();

    let filter = EventFilter::all().limit(3);
    let results = filter.apply(events.iter());
    assert_eq!(results.len(), 3);
    assert_eq!(results[0].msg.as_ref().unwrap(), "msg 7");
}

#[test]
fn test_agent_statuses() {
    let events = vec![
        RibbonEvent::new("mosaic", EventType::Submitted).with_task("task1"),
        RibbonEvent::new("mosaic", EventType::Working).with_task("task1"),
        RibbonEvent::new("mosaic", EventType::Committed).with_task("task1").with_commit("abc"),
        RibbonEvent::new("mosaic", EventType::Completed).with_task("task1").with_commit("abc"),
        RibbonEvent::new("zypi", EventType::Working).with_task("task2"),
    ];

    let statuses = agent_statuses(&events);
    let mosaic = statuses.iter().find(|s| s.agent == "mosaic").unwrap();
    assert_eq!(mosaic.state, "completed");
    assert_eq!(mosaic.completed_count, 1);

    let zypi = statuses.iter().find(|s| s.agent == "zypi").unwrap();
    assert_eq!(zypi.state, "working");
    assert!(zypi.has_active);
}

#[test]
fn test_find_previous_state_exact_match() {
    let events =
        vec![RibbonEvent::new("agent", EventType::Submitted).with_task("Build the gRPC layer")];
    let result = find_previous_state(&events, "agent", "Build the gRPC layer");
    assert!(result.is_some());
    let (et, canonical) = result.unwrap();
    assert_eq!(et, EventType::Submitted);
    assert_eq!(canonical.as_deref(), Some("Build the gRPC layer"));
}

#[test]
fn test_find_previous_state_whitespace_variation() {
    // Extra whitespace in query should still match; returns canonical task
    let events =
        vec![RibbonEvent::new("agent", EventType::Submitted).with_task("Build the gRPC layer")];
    let result = find_previous_state(&events, "agent", "  Build the gRPC layer  ");
    assert!(result.is_some());
    let (et, canonical) = result.unwrap();
    assert_eq!(et, EventType::Submitted);
    assert_eq!(canonical.as_deref(), Some("Build the gRPC layer"));
}

#[test]
fn test_find_previous_state_case_insensitive() {
    let events =
        vec![RibbonEvent::new("agent", EventType::Submitted).with_task("Build the gRPC layer")];
    let result = find_previous_state(&events, "agent", "BUILD THE GRPC LAYER");
    assert!(result.is_some());
    let (et, canonical) = result.unwrap();
    assert_eq!(et, EventType::Submitted);
    assert_eq!(canonical.as_deref(), Some("Build the gRPC layer"));
}

#[test]
fn test_find_previous_state_substring_fallback() {
    // Query is shorter substring of stored task; canonical task returned
    let events = vec![RibbonEvent::new("agent", EventType::Submitted)
        .with_task("IMPLEMENT the PrismFlow formal IR types and type inference engine")];
    let result = find_previous_state(&events, "agent", "PrismFlow formal IR types");
    assert!(result.is_some());
    let (et, canonical) = result.unwrap();
    assert_eq!(et, EventType::Submitted);
    assert_eq!(
        canonical.as_deref(),
        Some("IMPLEMENT the PrismFlow formal IR types and type inference engine")
    );
}

#[test]
fn test_find_previous_state_substring_reverse() {
    // Stored task is shorter, query is longer; canonical task returned
    let events = vec![RibbonEvent::new("agent", EventType::Working).with_task("add dark mode")];
    let result = find_previous_state(&events, "agent", "add dark mode to the whole app");
    assert!(result.is_some());
    let (et, canonical) = result.unwrap();
    assert_eq!(et, EventType::Working);
    assert_eq!(canonical.as_deref(), Some("add dark mode"));
}

#[test]
fn test_find_previous_state_agent_wide_fallback() {
    // No task match at all, but agent has exactly one active task
    let events = vec![RibbonEvent::new("agent", EventType::Submitted).with_task("only task")];
    let result = find_previous_state(&events, "agent", "completely different task name");
    assert!(result.is_some());
    let (et, canonical) = result.unwrap();
    assert_eq!(et, EventType::Submitted);
    assert_eq!(canonical.as_deref(), Some("only task"));
}

#[test]
fn test_find_previous_state_no_match_multiple_tasks() {
    // Agent has multiple active tasks — no fallback
    let events = vec![
        RibbonEvent::new("agent", EventType::Submitted).with_task("task one"),
        RibbonEvent::new("agent", EventType::Submitted).with_task("task two"),
    ];
    let result = find_previous_state(&events, "agent", "something else entirely");
    assert!(result.is_none());
}

#[test]
fn test_find_previous_state_new_task() {
    let events: Vec<RibbonEvent> = vec![];
    let result = find_previous_state(&events, "agent", "new task");
    assert!(result.is_none());
}

#[test]
fn test_find_previous_state_skips_notes() {
    let events = vec![
        RibbonEvent::new("agent", EventType::Submitted).with_task("real work"),
        RibbonEvent::new("agent", EventType::Note).with_task("real work").with_msg("observation"),
    ];
    // Should find Submitted, skipping the Note
    let result = find_previous_state(&events, "agent", "real work");
    assert!(result.is_some());
    let (et, _) = result.unwrap();
    assert_eq!(et, EventType::Submitted);
}

#[test]
fn test_find_previous_state_latest_active_state() {
    // Multiple events for same task — return latest
    let events = vec![
        RibbonEvent::new("agent", EventType::Submitted).with_task("work"),
        RibbonEvent::new("agent", EventType::Working).with_task("work"),
    ];
    let result = find_previous_state(&events, "agent", "work");
    assert!(result.is_some());
    let (et, _) = result.unwrap();
    assert_eq!(et, EventType::Working);
}

#[test]
fn test_find_previous_state_returns_canonical_task() {
    // When fuzzy matched, the canonical task should be from the log
    let events =
        vec![RibbonEvent::new("agent", EventType::Submitted).with_task("Original Task Name")];
    let result = find_previous_state(&events, "agent", "original");
    let (_, canonical) = result.unwrap();
    assert_eq!(canonical.as_deref(), Some("Original Task Name"));
}

#[test]
fn reading_does_not_depend_on_the_size_of_the_pieces() {
    let mut log = Vec::new();
    let written: Vec<RibbonEvent> = (0..5)
        .map(|i| {
            RibbonEvent::new("ägent", EventType::Note)
                .with_task(format!("tåsk {i}"))
                .with_msg("first line\nsecond line")
        })
        .collect();
    for e in &written {
        append(&mut log, e);
    }
    for size in 1..200 {
        let (events, warnings) = read(&log, size).unwrap();
        assert!(warnings.is_empty());
        assert_eq!(events.len(), written.len());
        assert!(events.iter().zip(&written).all(|(a, b)| same(a, b)));
    }
}

#[test]
fn blank_and_malformed_lines_are_skipped() {
    let e = RibbonEvent::new("a", EventType::Working);
    let mut log = b"\n \t \r\n{broken\n\n".to_vec();
    append(&mut log, &e);
    log.extend_from_slice("\u{a0}\u{3000}\n12".as_bytes());
    let (events, warnings) = read(&log, 7).unwrap();
    assert_eq!(events.len(), 1);
    assert!(same(&events[0], &e));
    assert_eq!(warnings.len(), 2);
    assert!(warnings[0].starts_with("ribbon: warning: skipping malformed line 3: "));
    assert_eq!(warnings[1], "ribbon: warning: skipping malformed line 7: no secs");
}

#[test]
fn a_last_line_without_newline_is_read() {
    let e = RibbonEvent::new("a", EventType::Working);
    let (events, _) = read(to_json(&e).as_bytes(), 16).unwrap();
    assert_eq!(events.len(), 1);
    assert!(same(&events[0], &e));
    assert_eq!(read(b"", 16).unwrap().0.len(), 0);
}

#[test]
fn an_event_appended_to_an_incomplete_line_is_lost_with_it() {
    let e = RibbonEvent::new("a", EventType::Working);
    let mut log = b"{\"half\"".to_vec();
    append(&mut log, &e);
    append(&mut log, &e);
    let (events, warnings) = read(&log, 64).unwrap();
    assert_eq!(events.len(), 1);
    assert_eq!(warnings.len(), 1);
}

#[test]
fn a_line_that_is_not_utf8_ends_reading() {
    let e = RibbonEvent::new("a", EventType::Working);
    let mut log = Vec::new();
    append(&mut log, &e);
    log.extend_from_slice(b"\xff\xfe\n");
    append(&mut log, &e);
    let error = read(&log, 16).unwrap_err();
    assert_eq!(error, StoreError::Io("stream did not contain valid UTF-8".to_string()));
    assert_eq!(error.message(), "I/O error: stream did not contain valid UTF-8");
}

#[test]
fn lines_are_trimmed_before_they_are_parsed() {
    let mut reader = LogReader::new();
    let taken = reader.feed("\u{2003} Text \u{85}\r\nmore".as_bytes());
    assert_eq!(taken.used, "\u{2003} Text \u{85}\r\n".len());
    assert!(taken.complete);
    assert_eq!(reader.take_line(), LineStep::Parse("Text".to_string()));
    let taken = reader.feed(b"more");
    assert_eq!(taken.used, 4);
    assert!(!taken.complete);
    assert!(reader.has_pending());
    assert_eq!(reader.take_line(), LineStep::Parse("more".to_string()));
    assert!(!reader.has_pending());
    assert_eq!(frame_line("{}"), "{}\n");
}

#[test]
fn errors_have_messages() {
    let missing = StoreError::opening("/tmp/log.ndjson", true, "no such file");
    assert_eq!(missing, StoreError::NotFound("/tmp/log.ndjson".to_string()));
    assert_eq!(missing.message(), "File not found: /tmp/log.ndjson");
    let denied = StoreError::opening("/tmp/log.ndjson", false, "permission denied");
    assert_eq!(denied, StoreError::Io("permission denied".to_string()));
    assert_eq!(denied.message(), "I/O error: permission denied");
    let json = StoreError::encoding("key must be a string");
    assert_eq!(json.message(), "JSON error at line 0: key must be a string");
    let json = StoreError::Json { line: 1070, source: "eof".to_string() };
    assert_eq!(json.message(), "JSON error at line 1070: eof");
}

#[test]
fn appending_adds_one_line() {
    let mut log = Vec::new();
    for n in 1..4 {
        let e = RibbonEvent::new("a", EventType::Note)
            .with_task("two\nlines")
            .with_msg("first\r\nsecond\u{2028}third");
        append(&mut log, &e);
        assert_eq!(log.iter().filter(|b| **b == b'\n').count(), n);
        assert_eq!(log.last(), Some(&b'\n'));
        let (events, warnings) = read(&log, 32).unwrap();
        assert_eq!(events.len(), n);
        assert!(same(&events[n - 1], &e));
        assert!(warnings.is_empty());
    }
}
