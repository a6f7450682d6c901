//! Further cases of filters, statuses and previous states.
use ribbon::{
    agent_statuses, agent_statuses_under, find_previous_state, match_task, normalize_task,
    state_machine, ClockReading, EventFilter, EventType, RibbonEvent, StateMachine, TaskMatch, Timestamp,
    Transition,
};

fn at(secs: i64, nanos: u32) -> RibbonEvent {
    let mut e = RibbonEvent::new("a", EventType::Note);
    e.ts = Timestamp { secs, nanos };
    e
}

fn task(agent: &str, et: EventType, task: &str) -> RibbonEvent {
    RibbonEvent::new(agent, et).with_task(task)
}

#[test]
fn a_new_event_has_the_current_time() {
    let e = RibbonEvent::new("a", EventType::Note);
    assert_eq!(e.agent, "a");
    assert!(e.ts.secs > 1_600_000_000);
    assert!(e.ts.nanos < 1_000_000_000);
    assert!(e.task.is_none() && e.msg.is_none() && e.commit.is_none());
}

#[test]
fn timestamps_are_ordered_by_seconds_and_nanoseconds() {
    let t = Timestamp { secs: 5, nanos: 7 };
    assert!(t.is_before(&Timestamp { secs: 5, nanos: 8 }));
    assert!(t.is_before(&Timestamp { secs: 6, nanos: 0 }));
    assert!(!t.is_before(&t));
    assert!(!t.is_before(&Timestamp { secs: 4, nanos: 9 }));
    assert!(Timestamp { secs: -1, nanos: 0 }.is_before(&t));
}

#[test]
fn since_is_inclusive() {
    let events = [at(9, 0), at(10, 4), at(10, 5), at(10, 6), at(11, 0)];
    let filter = EventFilter::all().since(Timestamp { secs: 10, nanos: 5 });
    let picked = filter.apply(events.iter());
    assert_eq!(picked.len(), 3);
    assert_eq!(picked[0].ts, Timestamp { secs: 10, nanos: 5 });
}

#[test]
fn filters_by_type_and_task() {
    let events = [
        task("a", EventType::Working, "Fix the PARSER"),
        task("a", EventType::Completed, "fix the parser"),
        RibbonEvent::new("a", EventType::Completed),
        task("a", EventType::Completed, "write docs"),
    ];
    let by_task = EventFilter::all().task_contains("the Parser");
    assert_eq!(by_task.apply(events.iter()).len(), 2);
    let by_both = EventFilter::all().task_contains("PARSER").event_type(EventType::Completed);
    let picked = by_both.apply(events.iter());
    assert_eq!(picked.len(), 1);
    assert_eq!(picked[0].task.as_deref(), Some("fix the parser"));
    assert_eq!(EventFilter::all().task_contains("").apply(events.iter()).len(), 3);
}

#[test]
fn task_filter_ignores_case_beyond_ascii() {
    let events = [task("a", EventType::Working, "ÜBERSETZUNG prüfen")];
    assert_eq!(EventFilter::all().task_contains("übersetzung").apply(events.iter()).len(), 1);
    assert_eq!(EventFilter::all().task_contains("PRÜF").apply(events.iter()).len(), 1);
    assert_eq!(EventFilter::all().task_contains("prufen").apply(events.iter()).len(), 0);
}

#[test]
fn the_filter_for_all_selects_all_and_limits_cut_the_front() {
    let events = [at(1, 0), at(2, 0), at(3, 0)];
    assert_eq!(EventFilter::all().apply(events.iter()).len(), 3);
    assert_eq!(EventFilter::default().apply(events.iter()).len(), 3);
    assert_eq!(EventFilter::all().limit(0).apply(events.iter()).len(), 0);
    assert_eq!(EventFilter::all().limit(7).apply(events.iter()).len(), 3);
    let last = EventFilter::all().limit(1).apply(events.iter());
    assert_eq!(last[0].ts.secs, 3);
    let filter = EventFilter::all().limit(2);
    let once = filter.apply(events.iter());
    let twice = filter.apply(once.clone().into_iter());
    assert_eq!(twice.len(), 2);
    assert_eq!(twice[0].ts, once[0].ts);
}

#[test]
fn conditions_add_up() {
    let events = [
        task("a", EventType::Working, "x"),
        task("b", EventType::Working, "x"),
        task("a", EventType::Failed, "y"),
    ];
    let both = EventFilter::all().agent("a").task_contains("x");
    let first = EventFilter::all().agent("a").apply(events.iter());
    let then = EventFilter::all().task_contains("x").apply(first.into_iter());
    let picked = both.apply(events.iter());
    assert_eq!(picked.len(), 1);
    assert_eq!(then.len(), 1);
    assert_eq!(picked[0].agent, then[0].agent);
    assert!(both.matches(&events[0]));
    assert!(!both.matches(&events[1]));
}

#[test]
fn statuses_are_sorted_by_agent() {
    let names = ["zoe", "Adam", "\u{10000}", "\u{ffee}", "é", "adam", "zo", "adam"];
    let events: Vec<RibbonEvent> =
        names.iter().map(|n| RibbonEvent::new(*n, EventType::Working)).collect();
    let agents: Vec<String> = agent_statuses(&events).into_iter().map(|s| s.agent).collect();
    assert_eq!(agents, ["Adam", "adam", "zo", "zoe", "é", "\u{ffee}", "\u{10000}"]);
    assert!(agent_statuses(&[]).is_empty());
}

#[test]
fn a_status_tells_the_request_of_its_state() {
    let cases = [
        (EventType::Submitted, "submitted", true),
        (EventType::Working, "working", true),
        (EventType::Committed, "committed", true),
        (EventType::Completed, "completed", false),
        (EventType::Failed, "failed", false),
        (EventType::Blocked, "blocked", true),
        (EventType::Confused, "confused", true),
        (EventType::Sudo, "sudo_pending", true),
        (EventType::Hitl, "hitl_pending", true),
        (EventType::Note, "idle", false),
        (EventType::SudoGranted, "idle", false),
        (EventType::SudoDenied, "idle", false),
        (EventType::HitlResolved, "idle", false),
    ];
    for (et, state, active) in cases {
        let events = [task("a", et, "t").with_msg("m")];
        let s = agent_statuses(&events).remove(0);
        assert_eq!(s.state, state);
        assert_eq!(s.has_active, active);
        assert_eq!(s.active_task.is_some(), active);
        assert_eq!(s.blocked_by.is_some(), et == EventType::Blocked);
        assert_eq!(s.confused_about.is_some(), et == EventType::Confused);
        assert_eq!(s.sudo_request.is_some(), et == EventType::Sudo);
        assert_eq!(s.hitl_request.is_some(), et == EventType::Hitl);
        if et.is_terminal() {
            assert!(s.next_actions.is_empty());
        }
    }
}

#[test]
fn a_submitted_task_can_be_worked_on_or_fail() {
    let events = [task("a", EventType::Submitted, "t")];
    let s = agent_statuses(&events).remove(0);
    assert_eq!(s.next_actions, ["working", "failed"]);
    assert_eq!(s.active_task.as_deref(), Some("t"));
}

#[test]
fn notes_and_responses_leave_the_state() {
    let mut events = vec![
        task("a", EventType::Sudo, "t").with_msg("rm").with_commit("c1"),
        RibbonEvent::new("a", EventType::Note).with_commit("c2"),
        RibbonEvent::new("a", EventType::SudoGranted),
    ];
    let s = agent_statuses(&events).remove(0);
    assert_eq!(s.state, "sudo_pending");
    assert_eq!(s.sudo_request.as_deref(), Some("rm"));
    assert_eq!(s.last_commit.as_deref(), Some("c2"));
    assert_eq!(s.next_actions, ["sudo_granted", "sudo_denied"]);
    events.push(RibbonEvent::new("b", EventType::Failed));
    events.push(RibbonEvent::new("a", EventType::Failed));
    events.push(RibbonEvent::new("a", EventType::Completed));
    events.push(RibbonEvent::new("a", EventType::Failed));
    let all = agent_statuses(&events);
    assert_eq!(all.len(), 2);
    assert_eq!(all[0].state, "failed");
    assert_eq!(all[0].failed_count, 2);
    assert_eq!(all[0].completed_count, 1);
    assert_eq!(all[0].last_commit.as_deref(), Some("c2"));
    assert_eq!(all[1].failed_count, 1);
    assert!(all[1].last_commit.is_none());
}

#[test]
fn next_actions_follow_the_machine() {
    let machine = StateMachine {
        transitions: vec![
            Transition { from: Some(EventType::Working), to: EventType::HitlResolved },
            Transition { from: None, to: EventType::Note },
            Transition { from: Some(EventType::Working), to: EventType::Submitted },
        ],
    };
    let events = [task("a", EventType::Working, "t"), RibbonEvent::new("b", EventType::Note)];
    let all = agent_statuses_under(&events, &machine);
    assert_eq!(all[0].next_actions, ["hitl_resolved", "submitted"]);
    assert_eq!(all[1].state, "idle");
    assert_eq!(all[1].next_actions, ["note"]);
    assert_eq!(
        state_machine().suggest(Some(&EventType::Submitted)),
        [EventType::Working, EventType::Failed]
    );
    assert!(state_machine().suggest(Some(&EventType::Completed)).is_empty());
    assert!(state_machine().suggest(Some(&EventType::Failed)).is_empty());
    assert_eq!(state_machine().suggest(None), [EventType::Submitted, EventType::Working]);
}

#[test]
fn tasks_are_trimmed_and_lowercased() {
    assert_eq!(normalize_task("\u{3000}\tFix THE Bug\r\n"), "fix the bug");
    assert_eq!(normalize_task("\u{2003}ÄÖÜ \u{1680}"), "äöü");
    assert_eq!(normalize_task(" \u{85}\u{a0}"), "");
}

#[test]
fn an_exact_match_is_preferred_to_a_later_fuzzy_one() {
    let events = [
        task("a", EventType::Submitted, " Build "),
        task("a", EventType::Working, "build it"),
    ];
    let (et, canonical) = find_previous_state(&events, "a", "BUILD").unwrap();
    assert_eq!(et, EventType::Submitted);
    assert_eq!(canonical.as_deref(), Some(" Build "));
    let found = match_task(&events, "a", "build");
    assert!(matches!(found, TaskMatch::Exact(_)));
    assert!(found.diagnostics("a", "build").is_empty());
}

#[test]
fn the_canonical_task_leads_back_to_the_same_event() {
    let events = [
        task("a", EventType::Submitted, "Only Task"),
        task("a", EventType::Blocked, "Only Task"),
        task("a", EventType::Completed, "done task"),
        task("b", EventType::Working, "other"),
    ];
    for query in ["only task", "only", "my only task today", "quite different"] {
        let (et, canonical) = find_previous_state(&events, "a", query).unwrap();
        assert_eq!(et, EventType::Blocked);
        let again = match_task(&events, "a", &canonical.unwrap());
        assert!(matches!(
            again,
            TaskMatch::Exact((EventType::Blocked, Some(ref t))) if t == "Only Task"
        ));
    }
}

#[test]
fn guesses_are_told() {
    let events = [task("a", EventType::Submitted, " Only Task ")];
    let fuzzy = match_task(&events, "a", "only");
    assert_eq!(
        fuzzy.diagnostics("a", "only"),
        ["  ℹ️  Matched task via fuzzy search: \"Only Task\""]
    );
    let only = match_task(&events, "a", "zzz");
    assert_eq!(
        only.diagnostics("a", "zzz"),
        ["  ℹ️  Matched agent's only active task: \"Only Task\""]
    );
}

#[test]
fn failures_list_the_active_tasks() {
    let events = [
        task("a", EventType::Submitted, "Task Two"),
        task("a", EventType::Working, "task one"),
        task("a", EventType::Blocked, "TASK TWO"),
        task("a", EventType::Working, "task three"),
        task("a", EventType::Failed, "Task Three"),
    ];
    let found = match_task(&events, "a", " other ");
    assert_eq!(
        found.diagnostics("a", " other "),
        [
            "  ⚠️  Could not match task \"other\" for agent \"a\".",
            "  Active tasks for a:",
            "    - task one",
            "    - task two",
            "  HINT: Copy the exact task name from above, or from `ribbon query --agent a`.",
        ]
    );
    assert!(found.into_previous_state().is_none());
    let none = match_task(&events, "b", "other");
    assert!(none.diagnostics("b", "other").is_empty());
    assert!(none.into_previous_state().is_none());
}

#[test]
fn a_terminated_task_is_found_but_not_guessed() {
    let events = [
        task("a", EventType::Working, "first"),
        task("a", EventType::Completed, "first"),
        task("a", EventType::Working, "second"),
    ];
    let (et, _) = find_previous_state(&events, "a", "First").unwrap();
    assert_eq!(et, EventType::Completed);
    let (et, canonical) = find_previous_state(&events, "a", "unheard of").unwrap();
    assert_eq!(et, EventType::Working);
    assert_eq!(canonical.as_deref(), Some("second"));
    assert!(find_previous_state(&events[..2], "a", "unheard of").is_none());
}

#[test]
fn irrelevant_events_make_no_difference() {
    let mut events = vec![task("a", EventType::Working, "job")];
    events.push(task("b", EventType::Completed, "job"));
    events.push(task("a", EventType::Note, "job"));
    events.push(task("a", EventType::SudoGranted, "job"));
    events.push(RibbonEvent::new("a", EventType::Completed));
    let (et, _) = find_previous_state(&events, "a", "job").unwrap();
    assert_eq!(et, EventType::Working);
    let (et, _) = find_previous_state(&events, "a", "unheard of").unwrap();
    assert_eq!(et, EventType::Working);
}

#[test]
fn the_clock_may_stand_before_the_epoch() {
    let at = |before_epoch: bool, secs: u64, nanos: u32| {
        let t = Timestamp::from_clock(ClockReading { before_epoch, secs, nanos });
        (t.secs, t.nanos)
    };
    assert_eq!(at(false, 0, 0), (0, 0));
    assert_eq!(at(false, 12, 345), (12, 345));
    assert_eq!(at(true, 12, 0), (-12, 0));
    assert_eq!(at(true, 12, 1), (-13, 999_999_999));
    assert_eq!(at(true, 0, 999_999_999), (-1, 1));
    assert_eq!(at(false, i64::MAX as u64, 5), (i64::MAX, 5));
    assert_eq!(at(false, i64::MAX as u64 + 1, 5), (i64::MAX, 0));
    assert_eq!(at(true, i64::MAX as u64, 1), (i64::MIN, 999_999_999));
    assert_eq!(at(true, i64::MAX as u64 + 1, 0), (i64::MIN, 0));
    assert_eq!(at(true, u64::MAX, 7), (i64::MIN, 0));
}

#[test]
fn an_agent_is_active_until_all_its_tasks_have_ended() {
    let mut events =
        vec![task("a", EventType::Working, "t1"), task("a", EventType::Completed, "t2")];
    let s = agent_statuses(&events).remove(0);
    assert_eq!(s.state, "completed");
    assert!(s.has_active);
    assert!(s.active_task.is_none());
    assert!(s.next_actions.is_empty());
    events.push(task("b", EventType::Failed, "t1"));
    events.push(RibbonEvent::new("a", EventType::Completed));
    events.push(task("a", EventType::Note, "t1"));
    assert!(agent_statuses(&events)[0].has_active);
    assert!(!agent_statuses(&events)[1].has_active);
    events.push(task("a", EventType::Failed, " T1 "));
    assert!(!agent_statuses(&events)[0].has_active);
    events.push(task("a", EventType::Submitted, "t1"));
    assert!(agent_statuses(&events)[0].has_active);
    events.push(RibbonEvent::new("a", EventType::Completed));
    assert!(agent_statuses(&events)[0].has_active);
}

#[test]
fn an_event_without_a_task_is_active_while_it_is_current() {
    let mut events = vec![RibbonEvent::new("a", EventType::Working)];
    assert!(agent_statuses(&events)[0].has_active);
    events.push(RibbonEvent::new("a", EventType::Completed));
    assert!(!agent_statuses(&events)[0].has_active);
}

#[test]
fn the_same_spelling_is_preferred_to_a_later_one_in_another_case() {
    let events = [
        task("agent", EventType::Submitted, "Work"),
        task("agent", EventType::Working, "work"),
    ];
    for query in ["Work", "  Work\t"] {
        let (et, canonical) = find_previous_state(&events, "agent", query).unwrap();
        assert_eq!(et, EventType::Submitted);
        assert_eq!(canonical.as_deref(), Some("Work"));
    }
    for query in ["work", "WORK", "wORK "] {
        let found = match_task(&events, "agent", query);
        assert!(found.diagnostics("agent", query).is_empty());
        let (et, canonical) = found.into_previous_state().unwrap();
        assert_eq!(et, EventType::Working);
        assert_eq!(canonical.as_deref(), Some("work"));
    }
}

#[test]
fn a_resubmitted_task_is_active_again() {
    let mut events = vec![
        task("agent", EventType::Completed, "alpha"),
        task("agent", EventType::Submitted, "alpha"),
    ];
    let (et, canonical) = find_previous_state(&events, "agent", "zzz").unwrap();
    assert_eq!(et, EventType::Submitted);
    assert_eq!(canonical.as_deref(), Some("alpha"));
    events.push(task("agent", EventType::Working, "beta"));
    let found = match_task(&events, "agent", "zzz");
    let lines = found.diagnostics("agent", "zzz");
    assert_eq!(lines[2..4], ["    - alpha", "    - beta"]);
    assert!(found.into_previous_state().is_none());
    events.push(task("agent", EventType::Failed, "ALPHA"));
    let (et, canonical) = find_previous_state(&events, "agent", "zzz").unwrap();
    assert_eq!(et, EventType::Working);
    assert_eq!(canonical.as_deref(), Some("beta"));
}

#[test]
fn normalizing_twice_is_normalizing_once() {
    for s in ["", "  ", " Fix  THE Bug\n", "\u{3000}ABC\u{85}", "ÄÖÜ ς Σ İ "] {
        let once = normalize_task(s);
        assert_eq!(normalize_task(&once), once);
        assert_eq!(once.trim(), once);
    }
}

#[test]
fn a_string_is_kept_as_it_is() {
    let e = RibbonEvent::new(String::from("A b"), EventType::Note)
        .with_task(String::from(" T "))
        .with_msg(format!("m {}", 1))
        .with_commit(String::from("C"));
    assert_eq!(e.agent, "A b");
    assert_eq!(e.task.as_deref(), Some(" T "));
    assert_eq!(e.msg.as_deref(), Some("m 1"));
    assert_eq!(e.commit.as_deref(), Some("C"));
    let f = EventFilter::all().agent(String::from("A b")).task_contains(String::from("t "));
    assert_eq!(f.agent.as_deref(), Some("A b"));
    assert_eq!(f.task_contains.as_deref(), Some("t "));
    assert!(f.matches(&e));
}

#[test]
fn logs_in_a_row_are_selected_from_one_after_the_other() {
    let first = [task("a", EventType::Working, "x"), task("b", EventType::Working, "y")];
    let second = [task("b", EventType::Failed, "z"), task("a", EventType::Failed, "x")];
    let filter = EventFilter::all().agent("a");
    let whole: Vec<RibbonEvent> = first.iter().chain(second.iter()).cloned().collect();
    let picked: Vec<EventType> = filter.apply(whole.iter()).iter().map(|e| e.event_type).collect();
    assert_eq!(picked, [EventType::Working, EventType::Failed]);
    assert_eq!(filter.apply(first.iter()).len(), 1);
    assert_eq!(filter.apply(second.iter()).len(), 1);
}

#[test]
fn a_note_in_the_middle_changes_only_the_last_commit() {
    let before = [task("a", EventType::Working, "x").with_commit("c1")];
    let note = task("a", EventType::Note, "x").with_commit("c2");
    let after = [task("a", EventType::Blocked, "x").with_msg("m"), task("b", EventType::Failed, "x")];
    let without: Vec<RibbonEvent> = before.iter().chain(after.iter()).cloned().collect();
    let mut with: Vec<RibbonEvent> = before.to_vec();
    with.push(note);
    with.extend_from_slice(&after);
    let (s, t) = (&agent_statuses(&without)[0], &agent_statuses(&with)[0]);
    assert_eq!(s.state, "blocked");
    assert_eq!(t.state, s.state);
    assert_eq!(t.active_task, s.active_task);
    assert_eq!(t.blocked_by.as_deref(), Some("m"));
    assert_eq!(s.last_commit.as_deref(), Some("c1"));
    assert_eq!(t.last_commit.as_deref(), Some("c2"));
    for query in ["x", "unheard of"] {
        assert_eq!(
            find_previous_state(&with, "a", query),
            find_previous_state(&without, "a", query)
        );
    }
}
