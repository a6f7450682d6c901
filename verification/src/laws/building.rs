//! How filters, events, errors and results are built.
use crate::error::StoreError;
use crate::event::{EventType, RibbonEvent, Timestamp};
use crate::filter::EventFilter;
use crate::log::LogReader;
use crate::previous::{PreviousStateResult, TaskMatch};
use vstd::prelude::*;

verus! {

/// The filter for all events asks for nothing and has no limit.
pub proof fn law_filter_for_all(f: EventFilter)
    requires
        call_ensures(EventFilter::all, (), f),
    ensures
        f.agent is None,
        f.event_type is None,
        f.since is None,
        f.task_contains is None,
        f.limit is None,
{
}

/// To ask for an agent, or for a task, sets that condition to the given text and keeps the others.
pub proof fn law_ask_for_text(
    f: EventFilter,
    t: &str,
    by_agent: EventFilter,
    by_task: EventFilter,
)
    requires
        call_ensures(EventFilter::agent::<&str>, (f, t), by_agent),
        call_ensures(EventFilter::task_contains::<&str>, (f, t), by_task),
    ensures
        by_agent.agent is Some && by_agent.agent->0@ == t@,
        by_agent.event_type == f.event_type,
        by_agent.since == f.since,
        by_agent.task_contains == f.task_contains,
        by_agent.limit == f.limit,
        by_task.task_contains is Some && by_task.task_contains->0@ == t@,
        by_task.agent == f.agent,
        by_task.event_type == f.event_type,
        by_task.since == f.since,
        by_task.limit == f.limit,
{
}

/// To ask for a type, a time or a limit sets just that and keeps the rest.
pub proof fn law_ask_for_value(
    f: EventFilter,
    et: EventType,
    ts: Timestamp,
    n: usize,
    by_type: EventFilter,
    by_time: EventFilter,
    limited: EventFilter,
)
    requires
        call_ensures(EventFilter::event_type, (f, et), by_type),
        call_ensures(EventFilter::since, (f, ts), by_time),
        call_ensures(EventFilter::limit, (f, n), limited),
    ensures
        by_type.event_type == Some(et),
        by_type.agent == f.agent && by_type.since == f.since,
        by_type.task_contains == f.task_contains && by_type.limit == f.limit,
        by_time.since == Some(ts),
        by_time.agent == f.agent && by_time.event_type == f.event_type,
        by_time.task_contains == f.task_contains && by_time.limit == f.limit,
        limited.limit == Some(n),
        limited.agent == f.agent && limited.event_type == f.event_type,
        limited.since == f.since && limited.task_contains == f.task_contains,
{
}

/// A new event has its agent and its type and nothing else but a time.
pub proof fn law_new_event(agent: &str, et: EventType, e: RibbonEvent)
    requires
        call_ensures(RibbonEvent::new::<&str>, (agent, et), e),
    ensures
        e.agent@ == agent@,
        e.event_type == et,
        e.task is None,
        e.msg is None,
        e.commit is None,
        e.ts.nanos < 1_000_000_000,
{
}

/// To give an event a task, a message or a commit sets just that and keeps the rest.
pub proof fn law_given_event(
    e: RibbonEvent,
    t: &str,
    with_task: RibbonEvent,
    with_msg: RibbonEvent,
    with_commit: RibbonEvent,
)
    requires
        call_ensures(RibbonEvent::with_task::<&str>, (e, t), with_task),
        call_ensures(RibbonEvent::with_msg::<&str>, (e, t), with_msg),
        call_ensures(RibbonEvent::with_commit::<&str>, (e, t), with_commit),
    ensures
        with_task.task is Some && with_task.task->0@ == t@,
        with_task.ts == e.ts && with_task.agent == e.agent && with_task.event_type == e.event_type,
        with_task.msg == e.msg && with_task.commit == e.commit,
        with_msg.msg is Some && with_msg.msg->0@ == t@,
        with_msg.ts == e.ts && with_msg.agent == e.agent && with_msg.event_type == e.event_type,
        with_msg.task == e.task && with_msg.commit == e.commit,
        with_commit.commit is Some && with_commit.commit->0@ == t@,
        with_commit.ts == e.ts && with_commit.agent == e.agent,
        with_commit.event_type == e.event_type,
        with_commit.task == e.task && with_commit.msg == e.msg,
{
}

/// A log that is missing is not found at its path; any other failure to open it is told by its
/// reason. An event that cannot be encoded belongs to no line.
pub proof fn law_errors(
    path: &str,
    is_missing: bool,
    reason: &str,
    opening: StoreError,
    encoding: StoreError,
)
    requires
        call_ensures(StoreError::opening, (path, is_missing, reason), opening),
        call_ensures(StoreError::encoding, (reason,), encoding),
    ensures
        is_missing ==> (opening matches StoreError::NotFound(p) && p@ == path@),
        !is_missing ==> (opening matches StoreError::Io(why) && why@ == reason@),
        encoding matches StoreError::Json { line, source } && line == 0 && source@ == reason@,
{
}

/// A match of any kind has a previous state, the one that it was found with; only where nothing
/// matched there is none.
pub proof fn law_state_of_match(m: TaskMatch, r: Option<PreviousStateResult>)
    requires
        call_ensures(TaskMatch::into_previous_state, (m,), r),
    ensures
        r is None <==> m is Unmatched,
        m matches TaskMatch::Exact(p) ==> r == Some(p),
        m matches TaskMatch::Fuzzy(p) ==> r == Some(p),
        m matches TaskMatch::OnlyActive(p) ==> r == Some(p),
{
}

/// A reader has something pending where it has taken bytes of a line.
pub proof fn law_pending(reader: &LogReader, r: bool)
    requires
        call_ensures(LogReader::has_pending, (reader,), r),
    ensures
        r <==> reader.pending().len() > 0,
{
}

} // verus!
