//! The previous state of a described task, over the events of the log.
use super::selection;
use super::{machine, summary};
use crate::event::RibbonEvent;
use crate::previous::{PreviousStateResult, TaskMatch};
use crate::{event, names, previous, text};
use vstd::prelude::*;

verus! {

/// The event belongs to `agent`, names a task and changes the state.
pub open spec fn speaks(e: RibbonEvent, agent: &str) -> bool {
    e.agent@ == agent@ && e.task is Some && machine::changes_state(e.event_type)
}

/// The task of the event is spelt as `task`, but for white space at the ends.
pub open spec fn is_spelt(e: RibbonEvent, agent: &str, task: &str) -> bool {
    speaks(e, agent) && text::trimmed(e.task->0@) == text::trimmed(task@)
}

/// The task of the event is `task`, but for white space at the ends and letter case.
pub open spec fn is_named(e: RibbonEvent, agent: &str, task: &str) -> bool {
    speaks(e, agent) && text::normalized(e.task->0@) == text::normalized(task@)
}

/// The normalized task of the event holds the normalized `task`, or is held by it.
pub open spec fn is_near(e: RibbonEvent, agent: &str, task: &str) -> bool {
    let name = text::normalized(e.task->0@);
    let query = text::normalized(task@);
    speaks(e, agent) && (selection::holds(name, query) || selection::holds(query, name))
}

/// The result tells the type and the task of the event.
pub open spec fn is_of(p: PreviousStateResult, e: RibbonEvent) -> bool {
    p.0 == e.event_type && p.1 is Some && e.task is Some && p.1->0@ == e.task->0@
}

proof fn lemma_latest_place(
    events: Seq<RibbonEvent>,
    p: spec_fn(event::EventView) -> bool,
    k: int,
)
    requires
        0 <= k < events.len(),
        p(events[k]@),
        forall|j: int| k < j < events.len() ==> !p((#[trigger] events[j])@),
    ensures
        event::latest(event::event_views(events), p) == Some(events[k]@),
{
    let views = event::event_views(events);
    assert(views[k] == events[k]@);
    assert forall|j: int| k < j < views.len() implies !p(#[trigger] views[j]) by {
        assert(views[j] == events[j]@);
    }
    event::lemma_latest_at(views, p, k);
}

proof fn lemma_latest_nowhere(events: Seq<RibbonEvent>, p: spec_fn(event::EventView) -> bool)
    requires
        forall|j: int| 0 <= j < events.len() ==> !p((#[trigger] events[j])@),
    ensures
        event::latest(event::event_views(events), p) is None,
{
    let views = event::event_views(events);
    let i = event::lemma_latest_is_last(views, p);
    if event::latest(views, p) is Some {
        assert(views[i] == events[i]@);
    }
}

proof fn lemma_stages(e: RibbonEvent, agent: &str, task: &str)
    ensures
        is_spelt(e, agent, task) == previous::is_exact(e@, agent@, task@),
        is_named(e, agent, task) == previous::is_same_name(
            e@,
            agent@,
            text::normalized(task@),
        ),
        is_near(e, agent, task) == previous::is_fuzzy(e@, agent@, text::normalized(task@)),
        is_spelt(e, agent, task) ==> is_named(e, agent, task),
        is_named(e, agent, task) ==> is_near(e, agent, task),
{
    let query = text::normalized(task@);
    if e.task is Some {
        let name = text::normalized(e.task->0@);
        selection::lemma_holds(name, query);
        selection::lemma_holds(query, name);
        if name == query {
            let at: int = 0;
            assert(name.subrange(at, at + query.len()) =~= query);
            assert(selection::holds(name, query));
        }
    }
}

/// Of the events about a task that is spelt as described, the last one is the match, and its type
/// and task are the previous state.
pub proof fn law_match_by_spelling(
    events: &[RibbonEvent],
    agent: &str,
    task: &str,
    m: TaskMatch,
    r: Option<PreviousStateResult>,
    k: int,
)
    requires
        call_ensures(previous::match_task, (events, agent, task), m),
        call_ensures(previous::find_previous_state, (events, agent, task), r),
        0 <= k < events@.len(),
        is_spelt(events@[k], agent, task),
        forall|j: int| k < j < events@.len() ==> !is_spelt(#[trigger] events@[j], agent, task),
    ensures
        m matches TaskMatch::Exact(p) && is_of(p, events@[k]),
        r matches Some(p) && is_of(p, events@[k]),
{
    let p = |e: event::EventView| previous::is_exact(e, agent@, task@);
    lemma_stages(events@[k], agent, task);
    assert forall|j: int| k < j < events@.len() implies !p((#[trigger] events@[j])@) by {
        lemma_stages(events@[j], agent, task);
    }
    lemma_latest_place(events@, p, k);
}

/// Where no event is about a task that is spelt as described, the last event about the task in
/// another letter case is the match, and its type and task are the previous state.
pub proof fn law_match_by_name(
    events: &[RibbonEvent],
    agent: &str,
    task: &str,
    m: TaskMatch,
    r: Option<PreviousStateResult>,
    k: int,
)
    requires
        call_ensures(previous::match_task, (events, agent, task), m),
        call_ensures(previous::find_previous_state, (events, agent, task), r),
        forall|j: int| 0 <= j < events@.len() ==> !is_spelt(#[trigger] events@[j], agent, task),
        0 <= k < events@.len(),
        is_named(events@[k], agent, task),
        forall|j: int| k < j < events@.len() ==> !is_named(#[trigger] events@[j], agent, task),
    ensures
        m matches TaskMatch::Exact(p) && is_of(p, events@[k]),
        r matches Some(p) && is_of(p, events@[k]),
{
    let query = text::normalized(task@);
    let p = |e: event::EventView| previous::is_exact(e, agent@, task@);
    let q = |e: event::EventView| previous::is_same_name(e, agent@, query);
    assert forall|j: int| 0 <= j < events@.len() implies !p((#[trigger] events@[j])@) by {
        lemma_stages(events@[j], agent, task);
    }
    lemma_latest_nowhere(events@, p);
    lemma_stages(events@[k], agent, task);
    assert forall|j: int| k < j < events@.len() implies !q((#[trigger] events@[j])@) by {
        lemma_stages(events@[j], agent, task);
    }
    lemma_latest_place(events@, q, k);
}

/// Where no event is about the described task in any letter case, the last event whose task holds
/// the description, or is held by it, is the match, and its type and task are the previous state.
pub proof fn law_match_by_part(
    events: &[RibbonEvent],
    agent: &str,
    task: &str,
    m: TaskMatch,
    r: Option<PreviousStateResult>,
    k: int,
)
    requires
        call_ensures(previous::match_task, (events, agent, task), m),
        call_ensures(previous::find_previous_state, (events, agent, task), r),
        forall|j: int| 0 <= j < events@.len() ==> !is_named(#[trigger] events@[j], agent, task),
        0 <= k < events@.len(),
        is_near(events@[k], agent, task),
        forall|j: int| k < j < events@.len() ==> !is_near(#[trigger] events@[j], agent, task),
    ensures
        m matches TaskMatch::Fuzzy(p) && is_of(p, events@[k]),
        r matches Some(p) && is_of(p, events@[k]),
{
    let query = text::normalized(task@);
    let p = |e: event::EventView| previous::is_exact(e, agent@, task@);
    let q = |e: event::EventView| previous::is_same_name(e, agent@, query);
    let f = |e: event::EventView| previous::is_fuzzy(e, agent@, query);
    assert forall|j: int| 0 <= j < events@.len() implies !p((#[trigger] events@[j])@) && !q(
        events@[j]@,
    ) by {
        lemma_stages(events@[j], agent, task);
    }
    lemma_latest_nowhere(events@, p);
    lemma_latest_nowhere(events@, q);
    lemma_stages(events@[k], agent, task);
    assert forall|j: int| k < j < events@.len() implies !f((#[trigger] events@[j])@) by {
        lemma_stages(events@[j], agent, task);
    }
    lemma_latest_place(events@, f, k);
}

proof fn lemma_nothing_near(events: Seq<RibbonEvent>, agent: &str, task: &str)
    requires
        forall|j: int| 0 <= j < events.len() ==> !is_near(#[trigger] events[j], agent, task),
    ensures
        previous::match_view(event::event_views(events), agent@, task@) == previous::fallback_view(
            event::event_views(events),
            agent@,
        ),
{
    let query = text::normalized(task@);
    let p = |e: event::EventView| previous::is_exact(e, agent@, task@);
    let q = |e: event::EventView| previous::is_same_name(e, agent@, query);
    let f = |e: event::EventView| previous::is_fuzzy(e, agent@, query);
    assert forall|j: int| 0 <= j < events.len() implies !p((#[trigger] events[j])@) && !q(
        events[j]@,
    ) && !f(events[j]@) by {
        lemma_stages(events[j], agent, task);
    }
    lemma_latest_nowhere(events, p);
    lemma_latest_nowhere(events, q);
    lemma_latest_nowhere(events, f);
}

/// The agent has exactly one unfinished task: it has one, and all its unfinished events are about
/// it.
pub open spec fn has_only_task(events: Seq<RibbonEvent>, agent: &str) -> bool {
    &&& exists|k: int| #[trigger] summary::is_unfinished(events, agent@, k)
    &&& forall|i: int, j: int| #[trigger]
        summary::is_unfinished(events, agent@, i) && #[trigger] summary::is_unfinished(
            events,
            agent@,
            j,
        ) ==> text::normalized(events[i].task->0@) == text::normalized(events[j].task->0@)
}

proof fn lemma_only_task(events: Seq<RibbonEvent>, agent: &str)
    ensures
        has_only_task(events, agent) == previous::has_one_live_task(
            event::event_views(events),
            agent@,
        ),
        forall|n: Seq<char>| #[trigger]
            previous::is_live_name(event::event_views(events), agent@, n) <==> exists|k: int|
                #[trigger] summary::is_unfinished(events, agent@, k) && text::normalized(
                    events[k].task->0@,
                ) == n,
{
    let views = event::event_views(events);
    assert forall|n: Seq<char>| #[trigger]
        previous::is_live_name(views, agent@, n) <==> exists|k: int| #[trigger]
            summary::is_unfinished(events, agent@, k) && text::normalized(events[k].task->0@)
                == n by {
        if previous::is_live_name(views, agent@, n) {
            let k = choose|k: int|
                0 <= k < views.len() && #[trigger] previous::is_live_at(views, agent@, k)
                    && event::task_name(views[k]) == n;
            summary::lemma_unfinished(events, agent@, k);
            assert(summary::is_unfinished(events, agent@, k));
        }
        if exists|k: int| #[trigger]
            summary::is_unfinished(events, agent@, k) && text::normalized(events[k].task->0@)
                == n {
            let k = choose|k: int| #[trigger]
                summary::is_unfinished(events, agent@, k) && text::normalized(
                    events[k].task->0@,
                ) == n;
            summary::lemma_unfinished(events, agent@, k);
            assert(previous::is_live_at(views, agent@, k));
        }
    }
    if has_only_task(events, agent) {
        let k = choose|k: int| #[trigger] summary::is_unfinished(events, agent@, k);
        assert(previous::is_live_name(views, agent@, text::normalized(events[k].task->0@)));
        assert forall|one: Seq<char>, other: Seq<char>|
            previous::is_live_name(views, agent@, one) && previous::is_live_name(
                views,
                agent@,
                other,
            ) implies one == other by {
            let i = choose|i: int| #[trigger]
                summary::is_unfinished(events, agent@, i) && text::normalized(events[i].task->0@)
                    == one;
            let j = choose|j: int| #[trigger]
                summary::is_unfinished(events, agent@, j) && text::normalized(events[j].task->0@)
                    == other;
        }
    }
    if previous::has_one_live_task(views, agent@) {
        let name = choose|name: Seq<char>| previous::is_live_name(views, agent@, name);
        assert(previous::is_live_name(views, agent@, name));
        assert forall|i: int, j: int| #[trigger]
            summary::is_unfinished(events, agent@, i) && #[trigger] summary::is_unfinished(
                events,
                agent@,
                j,
            ) implies text::normalized(events[i].task->0@) == text::normalized(
            events[j].task->0@,
        ) by {
            assert(previous::is_live_name(views, agent@, text::normalized(events[i].task->0@)));
            assert(previous::is_live_name(views, agent@, text::normalized(events[j].task->0@)));
        }
    }
}

/// Where the description is near no event and the agent has exactly one unfinished task, the last
/// unfinished event is the match, and its type and task are the previous state.
pub proof fn law_match_by_only_task(
    events: &[RibbonEvent],
    agent: &str,
    task: &str,
    m: TaskMatch,
    r: Option<PreviousStateResult>,
    k: int,
)
    requires
        call_ensures(previous::match_task, (events, agent, task), m),
        call_ensures(previous::find_previous_state, (events, agent, task), r),
        forall|j: int| 0 <= j < events@.len() ==> !is_near(#[trigger] events@[j], agent, task),
        has_only_task(events@, agent),
        summary::is_unfinished(events@, agent@, k),
        forall|j: int| k < j ==> !#[trigger] summary::is_unfinished(events@, agent@, j),
    ensures
        m matches TaskMatch::OnlyActive(p) && is_of(p, events@[k]),
        r matches Some(p) && is_of(p, events@[k]),
{
    let views = event::event_views(events@);
    lemma_nothing_near(events@, agent, task);
    lemma_only_task(events@, agent);
    let i = previous::lemma_latest_live(views, agent@, views.len());
    summary::lemma_unfinished(events@, agent@, k);
    assert(previous::is_live_at(views, agent@, k));
    summary::lemma_unfinished(events@, agent@, i);
    assert(i == k);
    assert(views[k] == events@[k]@);
}

/// Where the description is near no event and the agent has no unfinished task or several, there is
/// no previous state, and the names of its unfinished tasks are told, each once and in ascending
/// order.
pub proof fn law_no_match(
    events: &[RibbonEvent],
    agent: &str,
    task: &str,
    m: TaskMatch,
    r: Option<PreviousStateResult>,
)
    requires
        call_ensures(previous::match_task, (events, agent, task), m),
        call_ensures(previous::find_previous_state, (events, agent, task), r),
        forall|j: int| 0 <= j < events@.len() ==> !is_near(#[trigger] events@[j], agent, task),
        !has_only_task(events@, agent),
    ensures
        r is None,
        m is Unmatched,
        forall|i: int, j: int|
            0 <= i < j < m->Unmatched_0@.len() ==> text::text_before(
                (#[trigger] m->Unmatched_0@[i])@,
                (#[trigger] m->Unmatched_0@[j])@,
            ),
        forall|i: int|
            0 <= i < m->Unmatched_0@.len() ==> is_unfinished_name(
                events@,
                agent,
                (#[trigger] m->Unmatched_0@[i])@,
            ),
        forall|k: int| #[trigger]
            summary::is_unfinished(events@, agent@, k) ==> is_listed(
                m->Unmatched_0@,
                text::normalized(events@[k].task->0@),
            ),
{
    let views = event::event_views(events@);
    lemma_nothing_near(events@, agent, task);
    lemma_only_task(events@, agent);
    let listed = m->Unmatched_0@;
    let all = names::texts(listed);
    assert forall|i: int, j: int| 0 <= i < j < listed.len() implies text::text_before(
        (#[trigger] listed[i])@,
        (#[trigger] listed[j])@,
    ) by {
        assert(all[i] == listed[i]@ && all[j] == listed[j]@);
    }
    assert forall|i: int| 0 <= i < listed.len() implies is_unfinished_name(
        events@,
        agent,
        (#[trigger] listed[i])@,
    ) by {
        assert(all[i] == listed[i]@);
        assert(all.contains(listed[i]@));
        assert(previous::is_live_name(views, agent@, listed[i]@));
    }
    assert forall|k: int| #[trigger] summary::is_unfinished(events@, agent@, k) implies is_listed(
        listed,
        text::normalized(events@[k].task->0@),
    ) by {
        let n = text::normalized(events@[k].task->0@);
        assert(previous::is_live_name(views, agent@, n));
        assert(all.contains(n));
        let i = choose|i: int| 0 <= i < all.len() && all[i] == n;
        assert(listed[i]@ == n);
    }
}

/// `name` is the normalized task of an unfinished event.
pub open spec fn is_unfinished_name(
    events: Seq<RibbonEvent>,
    agent: &str,
    name: Seq<char>,
) -> bool {
    exists|k: int| #[trigger]
        summary::is_unfinished(events, agent@, k) && text::normalized(events[k].task->0@) == name
}

/// `name` is one of the listed names.
pub open spec fn is_listed(listed: Seq<String>, name: Seq<char>) -> bool {
    exists|i: int| 0 <= i < listed.len() && (#[trigger] listed[i])@ == name
}

/// An exact match needs no telling; a guess tells the task that was guessed; a failure tells the
/// description and the agent, then each unfinished task on a line of its own, and a hint, but
/// nothing where no task is unfinished.
pub proof fn law_diagnostics(m: &TaskMatch, agent: &str, task: &str, lines: Vec<String>)
    requires
        call_ensures(TaskMatch::diagnostics, (m, agent, task), lines),
    ensures
        m is Exact ==> lines@.len() == 0,
        m matches TaskMatch::Fuzzy(p) ==> lines@.len() == 1 && (p.1 matches Some(t) ==> lines@[0]@
            == "  ℹ️  Matched task via fuzzy search: \""@ + text::trimmed(t@) + "\""@),
        m matches TaskMatch::OnlyActive(p) ==> lines@.len() == 1 && (p.1 matches Some(t)
            ==> lines@[0]@ == "  ℹ️  Matched agent's only active task: \""@ + text::trimmed(
            t@,
        ) + "\""@),
        m matches TaskMatch::Unmatched(active) ==> active@.len() == 0 ==> lines@.len() == 0,
        m matches TaskMatch::Unmatched(active) ==> active@.len() > 0 ==> {
            &&& lines@.len() == active@.len() + 3
            &&& lines@[0]@ == "  ⚠️  Could not match task \""@ + text::trimmed(task@)
                + "\" for agent \""@ + agent@ + "\"."@
            &&& lines@[1]@ == "  Active tasks for "@ + agent@ + ":"@
            &&& forall|i: int|
                0 <= i < active@.len() ==> lines@[i + 2]@ == "    - "@ + (#[trigger] active@[i])@
            &&& lines@[lines@.len() - 1]@
                == "  HINT: Copy the exact task name from above, or from `ribbon query --agent "@
                + agent@ + "`."@
        },
{
    let all = names::texts(lines@);
    assert(all.len() == lines@.len());
    assert forall|i: int| 0 <= i < lines@.len() implies #[trigger] all[i] == lines@[i]@ by {}
    if let TaskMatch::Unmatched(active) = m {
        if active@.len() > 0 {
            assert(all[0] == lines@[0]@ && all[1] == lines@[1]@);
            assert(all[lines@.len() - 1] == lines@[lines@.len() - 1]@);
            assert forall|i: int| 0 <= i < active@.len() implies lines@[i + 2]@ == "    - "@ + (
            #[trigger] active@[i])@ by {
                assert(all[i + 2] == lines@[i + 2]@);
            }
        }
    } else if !(m is Exact) {
        assert(all[0] == lines@[0]@);
    }
}

} // verus!
