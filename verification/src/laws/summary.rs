//! The status of every agent, over the whole log.
use super::{machine, places};
use crate::event::{EventType, RibbonEvent, StateMachine, Transition};
use crate::status::AgentStatus;
use crate::{event, names, previous, status, text};
use vstd::prelude::*;

verus! {

/// The event belongs to the agent of the status.
pub open spec fn belongs(e: RibbonEvent, s: AgentStatus) -> bool {
    e.agent@ == s.agent@
}

/// One of the statuses is that of the agent of `e`.
pub open spec fn has_status(statuses: Seq<AgentStatus>, e: RibbonEvent) -> bool {
    exists|i: int| 0 <= i < statuses.len() && belongs(e, #[trigger] statuses[i])
}

/// One of the events belongs to the agent of `s`.
pub open spec fn has_event(events: Seq<RibbonEvent>, s: AgentStatus) -> bool {
    exists|k: int| 0 <= k < events.len() && belongs(#[trigger] events[k], s)
}

/// The positions of the log at which an event reports `et` of `agent`.
pub open spec fn reports(
    events: Seq<RibbonEvent>,
    agent: Seq<char>,
    et: EventType,
) -> spec_fn(int) -> bool {
    |k: int| events[k].agent@ == agent && events[k].event_type == et
}

/// The number of events in the log that report `et` of `agent`.
pub open spec fn number_of_reports(
    events: Seq<RibbonEvent>,
    agent: Seq<char>,
    et: EventType,
) -> nat {
    places::number_of_places(events.len(), reports(events, agent, et))
}

/// The event at `k` is the last one of the agent of `s` that changes its state.
pub open spec fn is_current(events: Seq<RibbonEvent>, s: AgentStatus, k: int) -> bool {
    &&& 0 <= k < events.len()
    &&& belongs(events[k], s)
    &&& machine::changes_state(events[k].event_type)
    &&& forall|j: int|
        k < j < events.len() && belongs(#[trigger] events[j], s) ==> !machine::changes_state(
            events[j].event_type,
        )
}

/// No event of the agent of `s` changes its state.
pub open spec fn is_idle(events: Seq<RibbonEvent>, s: AgentStatus) -> bool {
    forall|j: int|
        0 <= j < events.len() && belongs(#[trigger] events[j], s) ==> !machine::changes_state(
            events[j].event_type,
        )
}

/// Two optional texts are the same.
pub open spec fn same_text(a: Option<String>, b: Option<String>) -> bool {
    match (a, b) {
        (Some(x), Some(y)) => x@ == y@,
        (None, None) => true,
        _ => false,
    }
}

/// Two lists of texts are the same.
pub open spec fn same_texts(a: Vec<String>, b: Vec<String>) -> bool {
    a@.len() == b@.len() && forall|i: int| 0 <= i < a@.len() ==> (#[trigger] a@[i])@ == b@[i]@
}

/// Two statuses say the same.
pub open spec fn same_status(a: AgentStatus, b: AgentStatus) -> bool {
    &&& a.agent@ == b.agent@
    &&& a.state@ == b.state@
    &&& same_text(a.last_commit, b.last_commit)
    &&& a.completed_count == b.completed_count
    &&& a.failed_count == b.failed_count
    &&& a.has_active == b.has_active
    &&& same_text(a.active_task, b.active_task)
    &&& same_text(a.blocked_by, b.blocked_by)
    &&& same_text(a.confused_about, b.confused_about)
    &&& same_text(a.sudo_request, b.sudo_request)
    &&& same_text(a.hitl_request, b.hitl_request)
    &&& same_texts(a.next_actions, b.next_actions)
}

proof fn lemma_status(
    events: &[RibbonEvent],
    m: &StateMachine,
    r: Vec<AgentStatus>,
    i: int,
)
    requires
        call_ensures(status::agent_statuses_under, (events, m), r),
        0 <= i < r@.len(),
    ensures
        r@[i]@ == status::status_view(
            r@[i].agent@,
            status::own_events(event::event_views(events@), r@[i].agent@),
            m.transitions@,
        ),
{
    assert(status::status_views(r@)[i] == r@[i]@);
}

proof fn lemma_same_view(a: AgentStatus, b: AgentStatus)
    requires
        a@ == b@,
    ensures
        same_status(a, b),
{
    assert(names::texts(a.next_actions@).len() == a.next_actions@.len());
    assert(names::texts(b.next_actions@).len() == b.next_actions@.len());
    assert forall|i: int| 0 <= i < a.next_actions@.len() implies (#[trigger] a.next_actions@[i])@
        == b.next_actions@[i]@ by {
        assert(names::texts(a.next_actions@)[i] == a.next_actions@[i]@);
        assert(names::texts(b.next_actions@)[i] == b.next_actions@[i]@);
    }
}

/// There is exactly one status for each agent in the log and none for others, and the statuses
/// stand in the order of the agents.
pub proof fn law_one_status_each(events: &[RibbonEvent], m: &StateMachine, r: Vec<AgentStatus>)
    requires
        call_ensures(status::agent_statuses_under, (events, m), r),
    ensures
        forall|k: int| 0 <= k < events@.len() ==> has_status(r@, #[trigger] events@[k]),
        forall|i: int| 0 <= i < r@.len() ==> has_event(events@, #[trigger] r@[i]),
        forall|i: int, j: int|
            0 <= i < j < r@.len() ==> text::text_before(
                (#[trigger] r@[i]).agent@,
                (#[trigger] r@[j]).agent@,
            ) && r@[i].agent@ != r@[j].agent@,
{
    let views = event::event_views(events@);
    let out = status::status_views(r@);
    let agents = status::agents_of(out);
    assert forall|k: int| 0 <= k < events@.len() implies has_status(r@, #[trigger] events@[k]) by {
        let a = events@[k].agent@;
        assert(views[k].agent == a);
        assert(status::is_agent(views, a));
        assert(agents.contains(a));
        let i = choose|i: int| 0 <= i < agents.len() && agents[i] == a;
        assert(belongs(events@[k], r@[i]));
    }
    assert forall|i: int| 0 <= i < r@.len() implies has_event(events@, #[trigger] r@[i]) by {
        let a = r@[i].agent@;
        assert(agents[i] == a);
        assert(agents.contains(a));
        assert(status::is_agent(views, a));
        let k = choose|k: int| 0 <= k < views.len() && (#[trigger] views[k]).agent == a;
        assert(belongs(events@[k], r@[i]));
    }
    assert forall|i: int, j: int| 0 <= i < j < r@.len() implies text::text_before(
        (#[trigger] r@[i]).agent@,
        (#[trigger] r@[j]).agent@,
    ) && r@[i].agent@ != r@[j].agent@ by {
        assert(agents[i] == r@[i].agent@ && agents[j] == r@[j].agent@);
        text::lemma_before_irreflexive(agents[i]);
    }
}

proof fn lemma_count_in_log(views: Seq<event::EventView>, agent: Seq<char>, et: EventType)
    ensures
        status::count_of(status::own_events(views, agent), et) == views.filter(
            |e: event::EventView| e.agent == agent && e.event_type == et,
        ).len(),
    decreases views.len(),
{
    reveal(Seq::filter);
    if views.len() > 0 {
        let shorter = views.drop_last();
        lemma_count_in_log(shorter, agent, et);
        let own = status::own_events(shorter, agent);
        assert(own.push(views.last()).drop_last() =~= own);
    }
}

proof fn lemma_count(events: Seq<RibbonEvent>, agent: Seq<char>, et: EventType)
    ensures
        status::count_of(status::own_events(event::event_views(events), agent), et)
            == number_of_reports(events, agent, et),
{
    let views = event::event_views(events);
    let p = |e: event::EventView| e.agent == agent && e.event_type == et;
    lemma_count_in_log(views, agent, et);
    let found = places::lemma_filter_places(views, p);
    machine::lemma_same_places(
        found,
        events.len(),
        |k: int| p(views[k]),
        reports(events, agent, et),
    );
    places::lemma_number_of_places(found, events.len(), reports(events, agent, et));
}

/// The counts of a status are the numbers of events in the whole log that report its agent to have
/// completed, and to have failed.
pub proof fn law_counts_in_log(
    events: &[RibbonEvent],
    m: &StateMachine,
    r: Vec<AgentStatus>,
    i: int,
)
    requires
        call_ensures(status::agent_statuses_under, (events, m), r),
        0 <= i < r@.len(),
    ensures
        r@[i].completed_count == number_of_reports(events@, r@[i].agent@, EventType::Completed),
        r@[i].failed_count == number_of_reports(events@, r@[i].agent@, EventType::Failed),
{
    lemma_status(events, m, r, i);
    lemma_count(events@, r@[i].agent@, EventType::Completed);
    lemma_count(events@, r@[i].agent@, EventType::Failed);
}

proof fn lemma_latest_own(
    views: Seq<event::EventView>,
    agent: Seq<char>,
    p: spec_fn(event::EventView) -> bool,
    k: int,
)
    requires
        0 <= k < views.len(),
        views[k].agent == agent,
        p(views[k]),
        forall|j: int| k < j < views.len() && (#[trigger] views[j]).agent == agent ==> !p(views[j]),
    ensures
        event::latest(status::own_events(views, agent), p) == Some(views[k]),
    decreases views.len(),
{
    let shorter = views.drop_last();
    let last = views.last();
    assert(views =~= shorter.push(last));
    status::law_appended_event(shorter, last, agent);
    let own = status::own_events(shorter, agent);
    assert(own.push(last).drop_last() =~= own);
    if k < views.len() - 1 {
        assert(views[views.len() - 1] == last);
        assert forall|j: int|
            k < j < shorter.len() && (#[trigger] shorter[j]).agent == agent implies !p(
            shorter[j],
        ) by {
            assert(views[j] == shorter[j]);
        }
        lemma_latest_own(shorter, agent, p, k);
    }
}

proof fn lemma_none_own(
    views: Seq<event::EventView>,
    agent: Seq<char>,
    p: spec_fn(event::EventView) -> bool,
)
    requires
        forall|j: int| 0 <= j < views.len() && (#[trigger] views[j]).agent == agent ==> !p(views[j]),
    ensures
        event::latest(status::own_events(views, agent), p) is None,
    decreases views.len(),
{
    reveal(Seq::filter);
    if views.len() > 0 {
        let shorter = views.drop_last();
        let last = views.last();
        assert(views =~= shorter.push(last));
        status::law_appended_event(shorter, last, agent);
        let own = status::own_events(shorter, agent);
        assert(own.push(last).drop_last() =~= own);
        assert(views[views.len() - 1] == last);
        assert forall|j: int| 0 <= j < shorter.len() && (#[trigger] shorter[j]).agent
            == agent implies !p(shorter[j]) by {
            assert(views[j] == shorter[j]);
        }
        lemma_none_own(shorter, agent, p);
    }
}

proof fn lemma_current(events: Seq<RibbonEvent>, s: AgentStatus, k: int)
    requires
        is_current(events, s, k),
    ensures
        status::current_event(status::own_events(event::event_views(events), s.agent@)) == Some(
            events[k]@,
        ),
{
    let views = event::event_views(events);
    let p = |e: event::EventView| e.event_type.sets_state();
    assert(views[k] == events[k]@);
    assert forall|j: int|
        k < j < views.len() && (#[trigger] views[j]).agent == s.agent@ implies !p(views[j]) by {
        assert(views[j] == events[j]@);
        assert(belongs(events[j], s));
    }
    lemma_latest_own(views, s.agent@, p, k);
}

proof fn lemma_idle(events: Seq<RibbonEvent>, s: AgentStatus)
    requires
        is_idle(events, s),
    ensures
        status::current_event(status::own_events(event::event_views(events), s.agent@)) is None,
{
    let views = event::event_views(events);
    let p = |e: event::EventView| e.event_type.sets_state();
    assert forall|j: int|
        0 <= j < views.len() && (#[trigger] views[j]).agent == s.agent@ implies !p(views[j]) by {
        assert(views[j] == events[j]@);
        assert(belongs(events[j], s));
    }
    lemma_none_own(views, s.agent@, p);
}

/// The last event that changed the state of an agent tells its state, its active task unless it
/// ended it, and what it waits for.
pub proof fn law_state_of_agent(
    events: &[RibbonEvent],
    m: &StateMachine,
    r: Vec<AgentStatus>,
    i: int,
    k: int,
)
    requires
        call_ensures(status::agent_statuses_under, (events, m), r),
        0 <= i < r@.len(),
        is_current(events@, r@[i], k),
    ensures
        ({
            let s = r@[i];
            let e = events@[k];
            let none = None::<String>;
            &&& s.state@ == machine::state_after(e.event_type)
            &&& same_text(
                s.active_task,
                if machine::ends(e.event_type) {
                    none
                } else {
                    e.task
                },
            )
            &&& same_text(
                s.blocked_by,
                if e.event_type is Blocked {
                    e.msg
                } else {
                    none
                },
            )
            &&& same_text(
                s.confused_about,
                if e.event_type is Confused {
                    e.msg
                } else {
                    none
                },
            )
            &&& same_text(
                s.sudo_request,
                if e.event_type is Sudo {
                    e.msg
                } else {
                    none
                },
            )
            &&& same_text(
                s.hitl_request,
                if e.event_type is Hitl {
                    e.msg
                } else {
                    none
                },
            )
        }),
{
    lemma_status(events, m, r, i);
    lemma_current(events@, r@[i], k);
}

/// An agent none of whose events changes its state is idle.
pub proof fn law_idle_agent(
    events: &[RibbonEvent],
    m: &StateMachine,
    r: Vec<AgentStatus>,
    i: int,
)
    requires
        call_ensures(status::agent_statuses_under, (events, m), r),
        0 <= i < r@.len(),
        is_idle(events@, r@[i]),
    ensures
        r@[i].state@ == "idle"@,
        r@[i].active_task is None,
        r@[i].blocked_by is None,
        r@[i].confused_about is None,
        r@[i].sudo_request is None,
        r@[i].hitl_request is None,
        !r@[i].has_active,
{
    lemma_status(events, m, r, i);
    lemma_idle(events@, r@[i]);
    lemma_open(events@, r@[i].agent@);
    let views = event::event_views(events@);
    if exists|k: int| #[trigger] is_unfinished(events@, r@[i].agent@, k) {
        let k = choose|k: int| #[trigger] is_unfinished(events@, r@[i].agent@, k);
        assert(belongs(events@[k], r@[i]));
    }
}

/// The event at `k` is the last one of the agent of `s` that has a commit.
pub open spec fn has_last_commit(events: Seq<RibbonEvent>, s: AgentStatus, k: int) -> bool {
    &&& 0 <= k < events.len()
    &&& belongs(events[k], s)
    &&& events[k].commit is Some
    &&& forall|j: int|
        k < j < events.len() && belongs(#[trigger] events[j], s) ==> events[j].commit is None
}

/// The last commit of an agent is the one of its last event that has one.
pub proof fn law_commit_of_agent(
    events: &[RibbonEvent],
    m: &StateMachine,
    r: Vec<AgentStatus>,
    i: int,
    k: int,
)
    requires
        call_ensures(status::agent_statuses_under, (events, m), r),
        0 <= i < r@.len(),
        has_last_commit(events@, r@[i], k),
    ensures
        r@[i].last_commit is Some,
        r@[i].last_commit->0@ == events@[k].commit->0@,
{
    let s = r@[i];
    let views = event::event_views(events@);
    let p = |e: event::EventView| e.commit is Some;
    lemma_status(events, m, r, i);
    assert(views[k] == events@[k]@);
    assert forall|j: int|
        k < j < views.len() && (#[trigger] views[j]).agent == s.agent@ implies !p(views[j]) by {
        assert(views[j] == events@[j]@);
        assert(belongs(events@[j], s));
    }
    lemma_latest_own(views, s.agent@, p, k);
}

/// An agent none of whose events has a commit has no last commit.
pub proof fn law_no_commit(
    events: &[RibbonEvent],
    m: &StateMachine,
    r: Vec<AgentStatus>,
    i: int,
)
    requires
        call_ensures(status::agent_statuses_under, (events, m), r),
        0 <= i < r@.len(),
        forall|k: int|
            0 <= k < events@.len() && belongs(#[trigger] events@[k], r@[i])
                ==> events@[k].commit is None,
    ensures
        r@[i].last_commit is None,
{
    let s = r@[i];
    let views = event::event_views(events@);
    let p = |e: event::EventView| e.commit is Some;
    lemma_status(events, m, r, i);
    assert forall|j: int|
        0 <= j < views.len() && (#[trigger] views[j]).agent == s.agent@ implies !p(views[j]) by {
        assert(views[j] == events@[j]@);
        assert(belongs(events@[j], s));
    }
    lemma_none_own(views, s.agent@, p);
}

/// The event at `k` keeps a task of `agent` going, and no later event of the agent ends that task.
pub open spec fn is_unfinished(events: Seq<RibbonEvent>, agent: Seq<char>, k: int) -> bool {
    &&& 0 <= k < events.len()
    &&& events[k].agent@ == agent
    &&& machine::changes_state(events[k].event_type)
    &&& !machine::ends(events[k].event_type)
    &&& events[k].task is Some
    &&& forall|j: int|
        k < j < events.len() ==> !((#[trigger] events[j]).agent@ == agent && machine::ends(
            events[j].event_type,
        ) && events[j].task is Some && text::normalized(events[j].task->0@) == text::normalized(
            events[k].task->0@,
        ))
}

pub(crate) proof fn lemma_unfinished(events: Seq<RibbonEvent>, agent: Seq<char>, k: int)
    ensures
        is_unfinished(events, agent, k) <==> 0 <= k < events.len() && previous::is_live_at(
            event::event_views(events),
            agent,
            k,
        ),
{
    let views = event::event_views(events);
    if 0 <= k < events.len() {
        assert(views[k] == events[k]@);
        if previous::is_live_at(views, agent, k) {
            assert forall|j: int| k < j < events.len() implies !((#[trigger] events[j]).agent@
                == agent && machine::ends(events[j].event_type) && events[j].task is Some
                && text::normalized(events[j].task->0@) == text::normalized(
                events[k].task->0@,
            )) by {
                assert(views[j] == events[j]@);
                assert(!previous::ends_task(views[j], agent, event::task_name(views[k])));
            }
        }
        if is_unfinished(events, agent, k) {
            assert forall|j: int| k < j < views.len() implies !previous::ends_task(
                #[trigger] views[j],
                agent,
                event::task_name(views[k]),
            ) by {
                assert(views[j] == events[j]@);
                assert(events[j].agent@ == views[j].agent);
            }
        }
    }
}

proof fn lemma_open(events: Seq<RibbonEvent>, agent: Seq<char>)
    ensures
        status::has_open_task(status::own_events(event::event_views(events), agent))
            <==> exists|k: int| #[trigger] is_unfinished(events, agent, k),
{
    let views = event::event_views(events);
    let own = status::own_events(views, agent);
    if status::has_open_task(own) {
        let i = choose|i: int| 0 <= i < own.len() && #[trigger] status::is_open_at(own, i);
        let name = event::task_name(own[i]);
        assert(status::is_open_name(own, name));
        previous::law_active_tasks(views, agent, name);
        let k = choose|k: int|
            0 <= k < views.len() && #[trigger] previous::is_live_at(views, agent, k)
                && event::task_name(views[k]) == name;
        lemma_unfinished(events, agent, k);
        assert(is_unfinished(events, agent, k));
    }
    if exists|k: int| #[trigger] is_unfinished(events, agent, k) {
        let k = choose|k: int| #[trigger] is_unfinished(events, agent, k);
        lemma_unfinished(events, agent, k);
        let name = event::task_name(views[k]);
        assert(previous::is_live_name(views, agent, name));
        previous::law_active_tasks(views, agent, name);
        let i = choose|i: int|
            0 <= i < own.len() && #[trigger] status::is_open_at(own, i) && event::task_name(own[i])
                == name;
        assert(status::is_open_at(own, i));
    }
}

/// An agent is active where its current event does not end its task, or where some event of its
/// keeps a task going that no later one ends.
pub proof fn law_active_agent(
    events: &[RibbonEvent],
    m: &StateMachine,
    r: Vec<AgentStatus>,
    i: int,
)
    requires
        call_ensures(status::agent_statuses_under, (events, m), r),
        0 <= i < r@.len(),
    ensures
        r@[i].has_active <==> {
            ||| exists|k: int| #[trigger]
                is_current(events@, r@[i], k) && !machine::ends(events@[k].event_type)
            ||| exists|k: int| #[trigger] is_unfinished(events@, r@[i].agent@, k)
        },
{
    let s = r@[i];
    let views = event::event_views(events@);
    let own = status::own_events(views, s.agent@);
    lemma_status(events, m, r, i);
    lemma_open(events@, s.agent@);
    lemma_has_current(events@, s);
    if exists|k: int| #[trigger] is_current(events@, s, k) {
        let k = choose|k: int| #[trigger] is_current(events@, s, k);
        lemma_current(events@, s, k);
        assert forall|l: int| #[trigger] is_current(events@, s, l) implies l == k by {
            if l < k {
                assert(belongs(events@[k], s));
            } else if l > k {
                assert(belongs(events@[l], s));
            }
        }
    } else {
        lemma_idle(events@, s);
    }
}

/// An agent is idle or has a current event.
pub proof fn lemma_has_current(events: Seq<RibbonEvent>, s: AgentStatus)
    ensures
        is_idle(events, s) || exists|k: int| #[trigger] is_current(events, s, k),
{
    if !is_idle(events, s) {
        let k = choose|k: int|
            0 <= k < events.len() && belongs(#[trigger] events[k], s) && machine::changes_state(
                events[k].event_type,
            );
        let last = lemma_last_change(events, s, k);
        assert(is_current(events, s, last));
    }
}

proof fn lemma_last_change(events: Seq<RibbonEvent>, s: AgentStatus, k: int) -> (last: int)
    requires
        0 <= k < events.len(),
        belongs(events[k], s),
        machine::changes_state(events[k].event_type),
    ensures
        is_current(events, s, last),
    decreases events.len() - k,
{
    if exists|j: int|
        k < j < events.len() && belongs(#[trigger] events[j], s) && machine::changes_state(
            events[j].event_type,
        ) {
        let j = choose|j: int|
            k < j < events.len() && belongs(#[trigger] events[j], s) && machine::changes_state(
                events[j].event_type,
            );
        lemma_last_change(events, s, j)
    } else {
        k
    }
}

proof fn lemma_actions(m: &StateMachine, prev: Option<EventType>, actions: Vec<String>) -> (found:
    Seq<int>)
    requires
        names::texts(actions@) == status::action_texts(m.transitions@, prev),
    ensures
        actions@.len() == found.len(),
        forall|n: int|
            0 <= n < found.len() ==> (#[trigger] actions@[n])@ == machine::action_name(
                m.transitions@[found[n]].to,
            ),
        places::are_places(
            found,
            m.transitions@.len(),
            |k: int| m.transitions@[k].from == prev,
        ),
{
    let steps = m.transitions@;
    let p = |t: Transition| t.from == prev;
    let found = places::lemma_filter_places(steps, p);
    machine::lemma_same_places(
        found,
        steps.len(),
        |k: int| p(steps[k]),
        |k: int| steps[k].from == prev,
    );
    assert(names::texts(actions@).len() == found.len());
    assert forall|n: int| 0 <= n < found.len() implies (#[trigger] actions@[n])@
        == machine::action_name(steps[found[n]].to) by {
        assert(names::texts(actions@)[n] == actions@[n]@);
        assert(steps.filter(p)[n] == steps[found[n]]);
        machine::lemma_label(steps[found[n]].to);
    }
    found
}

/// The next actions of an agent are the names of the ends of the transitions that begin with the
/// type of its current event, in their order.
pub proof fn law_next_actions(
    events: &[RibbonEvent],
    m: &StateMachine,
    r: Vec<AgentStatus>,
    i: int,
    k: int,
) -> (found: Seq<int>)
    requires
        call_ensures(status::agent_statuses_under, (events, m), r),
        0 <= i < r@.len(),
        is_current(events@, r@[i], k),
    ensures
        r@[i].next_actions@.len() == found.len(),
        forall|n: int|
            0 <= n < found.len() ==> (#[trigger] r@[i].next_actions@[n])@ == machine::action_name(
                m.transitions@[found[n]].to,
            ),
        places::are_places(
            found,
            m.transitions@.len(),
            |t: int| m.transitions@[t].from == Some(events@[k].event_type),
        ),
{
    lemma_status(events, m, r, i);
    lemma_current(events@, r@[i], k);
    lemma_actions(m, Some(events@[k].event_type), r@[i].next_actions)
}

/// The next actions of an idle agent are the names of the ends of the transitions that begin with
/// nothing, in their order.
pub proof fn law_first_actions(
    events: &[RibbonEvent],
    m: &StateMachine,
    r: Vec<AgentStatus>,
    i: int,
) -> (found: Seq<int>)
    requires
        call_ensures(status::agent_statuses_under, (events, m), r),
        0 <= i < r@.len(),
        is_idle(events@, r@[i]),
    ensures
        r@[i].next_actions@.len() == found.len(),
        forall|n: int|
            0 <= n < found.len() ==> (#[trigger] r@[i].next_actions@[n])@ == machine::action_name(
                m.transitions@[found[n]].to,
            ),
        places::are_places(
            found,
            m.transitions@.len(),
            |t: int| m.transitions@[t].from == None::<EventType>,
        ),
{
    lemma_status(events, m, r, i);
    lemma_idle(events@, r@[i]);
    lemma_actions(m, None, r@[i].next_actions)
}

/// The statuses of a log are those under the state machine of this project.
pub proof fn law_project_statuses(
    events: &[RibbonEvent],
    m: &StateMachine,
    r: Vec<AgentStatus>,
    under: Vec<AgentStatus>,
)
    requires
        call_ensures(event::state_machine, (), *m),
        call_ensures(status::agent_statuses, (events,), r),
        call_ensures(status::agent_statuses_under, (events, m), under),
    ensures
        r@.len() == under@.len(),
        forall|i: int| 0 <= i < r@.len() ==> same_status(#[trigger] r@[i], under@[i]),
{
    let a = status::status_views(r@);
    let b = status::status_views(under@);
    status::law_one_summary(a, b, event::event_views(events@), event::project_steps());
    assert(a.len() == r@.len() && b.len() == under@.len());
    assert forall|i: int| 0 <= i < r@.len() implies same_status(#[trigger] r@[i], under@[i]) by {
        assert(a[i] == r@[i]@ && b[i] == under@[i]@);
        lemma_same_view(r@[i], under@[i]);
    }
}

/// An event that is appended to a log leaves the statuses of the other agents as they are. At its
/// own agent it counts where it completes or fails a task, its commit becomes the last one where it
/// has one, its state becomes the state of the agent, and a note or a response changes nothing else.
pub proof fn law_appended(
    events: &[RibbonEvent],
    longer: &[RibbonEvent],
    e: RibbonEvent,
    m: &StateMachine,
    before: Vec<AgentStatus>,
    after: Vec<AgentStatus>,
    i: int,
    j: int,
)
    requires
        longer@ == events@.push(e),
        call_ensures(status::agent_statuses_under, (events, m), before),
        call_ensures(status::agent_statuses_under, (longer, m), after),
        0 <= i < before@.len(),
        0 <= j < after@.len(),
        before@[i].agent@ == after@[j].agent@,
    ensures
        ({
            let old_status = before@[i];
            let new_status = after@[j];
            &&& !belongs(e, new_status) ==> same_status(old_status, new_status)
            &&& belongs(e, new_status) ==> {
                &&& new_status.completed_count == old_status.completed_count + (
                if e.event_type is Completed {
                    1int
                } else {
                    0
                })
                &&& new_status.failed_count == old_status.failed_count + (
                if e.event_type is Failed {
                    1int
                } else {
                    0
                })
                &&& same_text(
                    new_status.last_commit,
                    if e.commit is Some {
                        e.commit
                    } else {
                        old_status.last_commit
                    },
                )
                &&& machine::changes_state(e.event_type) ==> new_status.state@
                    == machine::state_after(e.event_type)
                &&& machine::changes_state(e.event_type) ==> same_text(
                    new_status.active_task,
                    if machine::ends(e.event_type) {
                        None
                    } else {
                        e.task
                    },
                )
                &&& machine::changes_state(e.event_type) && !machine::ends(e.event_type)
                    ==> new_status.has_active
                &&& !machine::changes_state(e.event_type) ==> same_status(
                    old_status,
                    AgentStatus { last_commit: old_status.last_commit, ..new_status },
                )
            }
        }),
{
    let views = event::event_views(events@);
    let agent = after@[j].agent@;
    let own = status::own_events(views, agent);
    lemma_status(events, m, before, i);
    lemma_status(longer, m, after, j);
    assert(event::event_views(longer@) =~= views.push(e@));
    status::law_appended_event(views, e@, agent);
    if !belongs(e, after@[j]) {
        lemma_same_view(before@[i], after@[j]);
    } else if machine::changes_state(e.event_type) {
        status::law_state_event(agent, own, e@, m.transitions@);
    } else {
        let none = Seq::<event::EventView>::empty();
        status::law_stateless_event(agent, own, e@, none, m.transitions@);
        assert(own + seq![e@] + none =~= own.push(e@));
        assert(own + none =~= own);
        let kept = AgentStatus { last_commit: before@[i].last_commit, ..after@[j] };
        lemma_same_view(before@[i], kept);
    }
}

} // verus!
