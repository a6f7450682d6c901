//! The current status of every agent in the log.
use crate::event::{EventType, RibbonEvent, StateMachine};
use crate::{event, names, text};
use vstd::prelude::*;
use vstd::utf8::*;

verus! {

/// Summary of an agent's current state based on its events.
#[derive(Clone, Debug)]
pub struct AgentStatus {
    pub agent: String,
    /// Current state: "idle", "submitted", "working", "committed", "completed",
    /// "failed", "blocked", "confused", "sudo_pending", "hitl_pending".
    pub state: String,
    /// Most recent commit hash if any.
    pub last_commit: Option<String>,
    /// Number of completed tasks total.
    pub completed_count: usize,
    /// Number of failed tasks total.
    pub failed_count: usize,
    /// Whether agent has any active (non-terminal) tasks.
    pub has_active: bool,
    /// The active task description if working.
    pub active_task: Option<String>,
    /// If blocked, what's the blocker (from msg).
    pub blocked_by: Option<String>,
    /// If confused, what's the question (from msg).
    pub confused_about: Option<String>,
    /// If sudo pending, what's requested (from msg).
    pub sudo_request: Option<String>,
    /// If HITL pending, what's needed (from msg).
    pub hitl_request: Option<String>,
    /// Valid next event types the agent can transition to.
    /// E.g. for "submitted": ["working", "failed"]. Empty for terminal states.
    pub next_actions: Vec<String>,
}

/// What a status says, with its strings as sequences of characters.
#[verifier::ext_equal]
pub struct StatusView {
    pub agent: Seq<char>,
    pub state: Seq<char>,
    pub last_commit: Option<Seq<char>>,
    pub completed_count: nat,
    pub failed_count: nat,
    pub has_active: bool,
    pub active_task: Option<Seq<char>>,
    pub blocked_by: Option<Seq<char>>,
    pub confused_about: Option<Seq<char>>,
    pub sudo_request: Option<Seq<char>>,
    pub hitl_request: Option<Seq<char>>,
    pub next_actions: Seq<Seq<char>>,
}

impl View for AgentStatus {
    type V = StatusView;

    open spec fn view(&self) -> StatusView {
        StatusView {
            agent: self.agent@,
            state: self.state@,
            last_commit: text::opt_view(self.last_commit),
            completed_count: self.completed_count as nat,
            failed_count: self.failed_count as nat,
            has_active: self.has_active,
            active_task: text::opt_view(self.active_task),
            blocked_by: text::opt_view(self.blocked_by),
            confused_about: text::opt_view(self.confused_about),
            sudo_request: text::opt_view(self.sudo_request),
            hitl_request: text::opt_view(self.hitl_request),
            next_actions: names::texts(self.next_actions@),
        }
    }
}

/// The events of `agent`, in their order.
pub open spec fn own_events(events: Seq<event::EventView>, agent: Seq<char>) -> Seq<
    event::EventView,
> {
    events.filter(|e: event::EventView| e.agent == agent)
}

/// The event that put the agent into its current state: the last one that sets a state.
pub open spec fn current_event(own: Seq<event::EventView>) -> Option<event::EventView> {
    event::latest(own, |e: event::EventView| e.event_type.sets_state())
}

/// The hash of the last commit.
pub open spec fn last_commit(own: Seq<event::EventView>) -> Option<Seq<char>> {
    match event::latest(own, |e: event::EventView| e.commit is Some) {
        Some(e) => e.commit,
        None => None,
    }
}

/// The number of events of type `et`.
pub open spec fn count_of(own: Seq<event::EventView>, et: EventType) -> nat {
    own.filter(|e: event::EventView| e.event_type == et).len()
}

/// The message of the current event, where it is of type `et`.
pub open spec fn message_if(current: Option<event::EventView>, et: EventType) -> Option<Seq<char>> {
    match current {
        Some(e) => if e.event_type == et {
            e.msg
        } else {
            None
        },
        None => None,
    }
}

/// The names, in lower case, of the event types that `steps` allow after `prev`.
pub open spec fn action_texts(steps: Seq<event::Transition>, prev: Option<EventType>) -> Seq<
    Seq<char>,
> {
    event::successors(steps, prev).map_values(|et: EventType| text::lowercase(et.label_text()))
}

/// The event at position `i` keeps a task active, and no later event ends that task.
pub open spec fn is_open_at(own: Seq<event::EventView>, i: int) -> bool {
    &&& own[i].event_type.keeps_active()
    &&& own[i].task is Some
    &&& forall|j: int|
        i < j < own.len() ==> !event::ends_name(#[trigger] own[j], event::task_name(own[i]))
}

/// `name` is an active task.
pub open spec fn is_open_name(own: Seq<event::EventView>, name: Seq<char>) -> bool {
    exists|i: int|
        0 <= i < own.len() && #[trigger] is_open_at(own, i) && event::task_name(own[i]) == name
}

/// Some task is active.
pub open spec fn has_open_task(own: Seq<event::EventView>) -> bool {
    exists|i: int| 0 <= i < own.len() && #[trigger] is_open_at(own, i)
}

/// The current event keeps its task active, whether it names one or not.
pub open spec fn is_busy(current: Option<event::EventView>) -> bool {
    current matches Some(e) && e.event_type.keeps_active()
}

/// The status of `agent`, whose events are `own`, where agents take the given `steps`. The agent
/// has an active task where its current event is about one, and also where an earlier one has not
/// been ended.
pub open spec fn status_view(
    agent: Seq<char>,
    own: Seq<event::EventView>,
    steps: Seq<event::Transition>,
) -> StatusView {
    let current = current_event(own);
    StatusView {
        agent,
        state: match current {
            Some(e) => e.event_type.state_text(),
            None => "idle"@,
        },
        last_commit: last_commit(own),
        completed_count: count_of(own, EventType::Completed),
        failed_count: count_of(own, EventType::Failed),
        has_active: is_busy(current) || has_open_task(own),
        active_task: if is_busy(current) {
            current->0.task
        } else {
            None
        },
        blocked_by: message_if(current, EventType::Blocked),
        confused_about: message_if(current, EventType::Confused),
        sudo_request: message_if(current, EventType::Sudo),
        hitl_request: message_if(current, EventType::Hitl),
        next_actions: action_texts(
            steps,
            match current {
                Some(e) => Some(e.event_type),
                None => None,
            },
        ),
    }
}

/// `agent` occurs in the log.
pub open spec fn is_agent(events: Seq<event::EventView>, agent: Seq<char>) -> bool {
    exists|i: int| 0 <= i < events.len() && (#[trigger] events[i]).agent == agent
}

/// The agents of a sequence of statuses.
pub open spec fn agents_of(statuses: Seq<StatusView>) -> Seq<Seq<char>> {
    statuses.map_values(|s: StatusView| s.agent)
}

/// The statuses are those of the agents in the log: one for each, in ascending order of the
/// agents, made from the events of its agent.
pub open spec fn is_summary(
    statuses: Seq<StatusView>,
    events: Seq<event::EventView>,
    steps: Seq<event::Transition>,
) -> bool {
    &&& names::ascending(agents_of(statuses))
    &&& forall|a: Seq<char>| #[trigger]
        agents_of(statuses).contains(a) <==> is_agent(events, a)
    &&& forall|i: int|
        0 <= i < statuses.len() ==> #[trigger] statuses[i] == status_view(
            statuses[i].agent,
            own_events(events, statuses[i].agent),
            steps,
        )
}

/// What a sequence of statuses says.
pub open spec fn status_views(statuses: Seq<AgentStatus>) -> Seq<StatusView> {
    statuses.map_values(|s: AgentStatus| s@)
}

/// What a sequence of borrowed events says.
spec fn ref_views(events: Seq<&RibbonEvent>) -> Seq<event::EventView> {
    events.map_values(|e: &RibbonEvent| e@)
}

/// The agents in the log, in ascending order.
fn agent_names(events: &[RibbonEvent]) -> (r: Vec<String>)
    ensures
        names::ascending(names::texts(r@)),
        forall|a: Seq<char>| #[trigger]
            names::texts(r@).contains(a) <==> is_agent(event::event_views(events@), a),
{
    let ghost views = event::event_views(events@);
    let mut agents: Vec<String> = Vec::new();
    for i in 0..events.len()
        invariant
            views == event::event_views(events@),
            names::ascending(names::texts(agents@)),
            forall|a: Seq<char>| #[trigger]
                names::texts(agents@).contains(a) <==> is_agent(views.take(i as int), a),
    {
        let ghost before = names::texts(agents@);
        names::add_name(&mut agents, events[i].agent.clone());
        assert forall|a: Seq<char>| #[trigger]
            names::texts(agents@).contains(a) <==> is_agent(views.take(i + 1), a) by {
            let shorter = views.take(i as int);
            let longer = views.take(i + 1);
            assert(longer[i as int].agent == events@[i as int].agent@);
            assert(before.contains(a) <==> is_agent(shorter, a));
            if is_agent(shorter, a) {
                let k = choose|k: int| 0 <= k < shorter.len() && (#[trigger] shorter[k]).agent == a;
                assert(longer[k].agent == a);
            }
            if is_agent(longer, a) {
                let k = choose|k: int| 0 <= k < longer.len() && (#[trigger] longer[k]).agent == a;
                if k < i {
                    assert(shorter[k].agent == a);
                }
            }
        }
    }
    assert(views.take(events.len() as int) =~= views);
    agents
}

/// The events of `agent`, in their order.
fn events_of<'a>(events: &'a [RibbonEvent], agent: &String) -> (r: Vec<&'a RibbonEvent>)
    ensures
        ref_views(r@) == own_events(event::event_views(events@), agent@),
{
    let ghost views = event::event_views(events@);
    let ghost p = |e: event::EventView| e.agent == agent@;
    let mut own: Vec<&'a RibbonEvent> = Vec::new();
    assert(ref_views(own@) =~= views.take(0).filter(p)) by {
        reveal(Seq::filter);
    }
    for i in 0..events.len()
        invariant
            views == event::event_views(events@),
            p == (|e: event::EventView| e.agent == agent@),
            ref_views(own@) == views.take(i as int).filter(p),
    {
        let e = &events[i];
        let ghost before = own@;
        proof {
            reveal(Seq::filter);
            assert(views.take(i + 1).drop_last() =~= views.take(i as int));
        }
        if e.agent == *agent {
            own.push(e);
            assert(ref_views(own@) =~= ref_views(before).push(e@));
        }
    }
    assert(views.take(events.len() as int) =~= views);
    own
}

/// The number of events of type `et`.
fn count_events(own: &Vec<&RibbonEvent>, et: EventType) -> (r: usize)
    ensures
        r == count_of(ref_views(own@), et),
{
    let ghost views = ref_views(own@);
    let ghost p = |e: event::EventView| e.event_type == et;
    let mut count: usize = 0;
    assert(views.take(0).filter(p).len() == 0) by {
        reveal(Seq::filter);
    }
    for i in 0..own.len()
        invariant
            views == ref_views(own@),
            p == (|e: event::EventView| e.event_type == et),
            count <= i,
            count == views.take(i as int).filter(p).len(),
    {
        proof {
            reveal(Seq::filter);
            assert(views.take(i + 1).drop_last() =~= views.take(i as int));
        }
        if own[i].event_type == et {
            count = count + 1;
        }
    }
    assert(views.take(own.len() as int) =~= views);
    count
}

/// The names, in lower case, of the event types that may follow `prev`.
fn action_names(machine: &StateMachine, prev: Option<EventType>) -> (r: Vec<String>)
    ensures
        names::texts(r@) == action_texts(machine.transitions@, prev),
{
    let next = machine.suggest(prev.as_ref());
    let ghost wanted = action_texts(machine.transitions@, prev);
    let mut actions: Vec<String> = Vec::new();
    for i in 0..next.len()
        invariant
            wanted == next@.map_values(|et: EventType| text::lowercase(et.label_text())),
            names::texts(actions@) == wanted.take(i as int),
    {
        let ghost before = names::texts(actions@);
        actions.push(text::to_lowercase(next[i].label()));
        assert(names::texts(actions@) =~= before.push(wanted[i as int]));
        assert(wanted.take(i + 1) =~= wanted.take(i as int).push(wanted[i as int]));
    }
    assert(wanted.take(next.len() as int) =~= wanted);
    actions
}

/// An event from position `from` on ends the task `name`.
spec fn ends_from(own: Seq<event::EventView>, from: int, name: Seq<char>) -> bool {
    exists|j: int| from <= j < own.len() && event::ends_name(#[trigger] own[j], name)
}

/// Whether some task is active.
fn has_open(own: &Vec<&RibbonEvent>) -> (r: bool)
    ensures
        r == has_open_task(ref_views(own@)),
{
    let ghost views = ref_views(own@);
    let mut ended: Vec<String> = Vec::new();
    let mut i: usize = own.len();
    while i > 0
        invariant
            i <= own.len(),
            views == ref_views(own@),
            names::ascending(names::texts(ended@)),
            forall|n: Seq<char>| #[trigger]
                names::texts(ended@).contains(n) <==> ends_from(views, i as int, n),
            forall|k: int| i <= k < views.len() ==> !#[trigger] is_open_at(views, k),
        decreases i,
    {
        i = i - 1;
        let e = own[i];
        let ghost later = names::texts(ended@);
        assert(views[i as int] == e@);
        if let Some(t) = &e.task {
            let name = text::normalize_task(t.as_str());
            if e.event_type.is_terminal() {
                names::add_name(&mut ended, name);
            } else if e.event_type.is_active() && !names::has_name(&ended, &name) {
                assert forall|j: int| i < j < views.len() implies !event::ends_name(
                    #[trigger] views[j],
                    name@,
                ) by {
                    assert(!ends_from(views, i + 1, name@));
                }
                assert(is_open_at(views, i as int));
                return true;
            }
        }
        assert forall|n: Seq<char>| #[trigger]
            names::texts(ended@).contains(n) <==> ends_from(views, i as int, n) by {
            assert(later.contains(n) <==> ends_from(views, i + 1, n));
            if ends_from(views, i as int, n) {
                let k = choose|k: int|
                    i <= k < views.len() && event::ends_name(#[trigger] views[k], n);
                if k > i {
                    assert(ends_from(views, i + 1, n));
                }
            }
        }
        assert(!is_open_at(views, i as int)) by {
            let name = event::task_name(e@);
            if e@.task is Some && later.contains(name) {
                assert(ends_from(views, i + 1, name));
            }
        }
    }
    false
}

/// The status of one agent from its own events.
fn status_of(agent: &String, own: &Vec<&RibbonEvent>, machine: &StateMachine) -> (r: AgentStatus)
    ensures
        r@ == status_view(agent@, ref_views(own@), machine.transitions@),
{
    let ghost views = ref_views(own@);
    let ghost sets = |e: event::EventView| e.event_type.sets_state();
    let ghost commits = |e: event::EventView| e.commit is Some;
    let completed_count = count_events(own, EventType::Completed);
    let failed_count = count_events(own, EventType::Failed);

    let mut current: Option<&RibbonEvent> = None;
    let mut last_commit: Option<String> = None;

    // Walk backwards to find current state
    let mut i: usize = own.len();
    assert(views.take(i as int) =~= views);
    while i > 0 && (current.is_none() || last_commit.is_none())
        invariant
            i <= own.len(),
            views == ref_views(own@),
            sets == (|e: event::EventView| e.event_type.sets_state()),
            commits == (|e: event::EventView| e.commit is Some),
            match current {
                Some(e) => event::latest(views, sets) == Some(e@),
                None => event::latest(views, sets) == event::latest(views.take(i as int), sets),
            },
            match last_commit {
                Some(c) => event::latest(views, commits) matches Some(e) && e.commit == Some(c@),
                None => event::latest(views, commits) == event::latest(
                    views.take(i as int),
                    commits,
                ),
            },
        decreases i,
    {
        i = i - 1;
        let e = own[i];
        assert(views.take(i + 1).drop_last() =~= views.take(i as int));
        assert(views.take(i + 1).last() == e@);
        if current.is_none() && e.event_type != EventType::Note && !e.event_type.is_response() {
            current = Some(e);
        }
        if last_commit.is_none() {
            last_commit = text::clone_text(&e.commit);
        }
    }

    let mut state = "idle";
    let mut prev: Option<EventType> = None;
    let mut has_active = has_open(own);
    let mut active_task: Option<String> = None;
    let mut blocked_by: Option<String> = None;
    let mut confused_about: Option<String> = None;
    let mut sudo_request: Option<String> = None;
    let mut hitl_request: Option<String> = None;
    if let Some(e) = current {
        state = e.event_type.state_name();
        prev = Some(e.event_type);
        if e.event_type.is_active() {
            has_active = true;
            active_task = text::clone_text(&e.task);
        }
        match e.event_type {
            EventType::Blocked => {
                blocked_by = text::clone_text(&e.msg);
            },
            EventType::Confused => {
                confused_about = text::clone_text(&e.msg);
            },
            EventType::Sudo => {
                sudo_request = text::clone_text(&e.msg);
            },
            EventType::Hitl => {
                hitl_request = text::clone_text(&e.msg);
            },
            _ => {},
        }
    }
    // Compute valid next actions from this state
    let next_actions = action_names(machine, prev);

    AgentStatus {
        agent: agent.clone(),
        state: String::from(state),
        last_commit,
        completed_count,
        failed_count,
        has_active,
        active_task,
        blocked_by,
        confused_about,
        sudo_request,
        hitl_request,
        next_actions,
    }
}

/// Compute current status for all agents found in the event log, where agents take the steps of
/// `machine`.
pub fn agent_statuses_under(events: &[RibbonEvent], machine: &StateMachine) -> (r: Vec<AgentStatus>)
    ensures
        is_summary(status_views(r@), event::event_views(events@), machine.transitions@),
{
    let ghost views = event::event_views(events@);
    let agents = agent_names(events);
    let ghost wanted = names::texts(agents@);
    let mut statuses: Vec<AgentStatus> = Vec::new();
    for i in 0..agents.len()
        invariant
            views == event::event_views(events@),
            wanted == names::texts(agents@),
            statuses.len() == i,
            forall|k: int|
                0 <= k < i ==> (#[trigger] statuses@[k])@ == status_view(
                    wanted[k],
                    own_events(views, wanted[k]),
                    machine.transitions@,
                ),
    {
        let own = events_of(events, &agents[i]);
        statuses.push(status_of(&agents[i], &own, machine));
    }
    proof {
        let out = status_views(statuses@);
        assert forall|k: int| 0 <= k < out.len() implies #[trigger] out[k] == status_view(
            wanted[k],
            own_events(views, wanted[k]),
            machine.transitions@,
        ) by {
            assert(out[k] == statuses@[k]@);
        }
        assert(agents_of(out) =~= wanted);
    }
    statuses
}

/// Compute current status for all agents found in the event log.
pub fn agent_statuses(events: &[RibbonEvent]) -> (r: Vec<AgentStatus>)
    ensures
        is_summary(status_views(r@), event::event_views(events@), event::project_steps()),
{
    agent_statuses_under(events, &event::state_machine())
}

/// A log has one summary.
pub proof fn law_one_summary(
    one: Seq<StatusView>,
    other: Seq<StatusView>,
    events: Seq<event::EventView>,
    steps: Seq<event::Transition>,
)
    requires
        is_summary(one, events, steps),
        is_summary(other, events, steps),
    ensures
        one == other,
{
    let a = agents_of(one);
    let b = agents_of(other);
    assert forall|n: Seq<char>| a.contains(n) <==> b.contains(n) by {
        assert(a.contains(n) <==> is_agent(events, n));
        assert(b.contains(n) <==> is_agent(events, n));
    }
    names::lemma_ascending_unique(a, b);
    assert forall|i: int| 0 <= i < one.len() implies one[i] == other[i] by {
        assert(a[i] == one[i].agent && b[i] == other[i].agent);
    }
    assert(one =~= other);
}

/// An event that is appended to the log is the last of the events of its agent, and the events of
/// the other agents stay as they are.
pub proof fn law_appended_event(
    events: Seq<event::EventView>,
    e: event::EventView,
    agent: Seq<char>,
)
    ensures
        own_events(events.push(e), agent) == (if e.agent == agent {
            own_events(events, agent).push(e)
        } else {
            own_events(events, agent)
        }),
        is_agent(events.push(e), agent) <==> is_agent(events, agent) || e.agent == agent,
{
    reveal(Seq::filter);
    let longer = events.push(e);
    assert(longer.drop_last() =~= events);
    assert(longer[events.len() as int] == e);
    if is_agent(events, agent) {
        let k = choose|k: int| 0 <= k < events.len() && (#[trigger] events[k]).agent == agent;
        assert(longer[k].agent == agent);
    }
    if is_agent(longer, agent) {
        let k = choose|k: int| 0 <= k < longer.len() && (#[trigger] longer[k]).agent == agent;
        if k < events.len() {
            assert(events[k].agent == agent);
        }
    }
}

/// After an appended event a task is active where that event keeps it active, or where it was active
/// before and that event does not end it.
pub proof fn law_open_name(own: Seq<event::EventView>, e: event::EventView, name: Seq<char>)
    ensures
        is_open_name(own.push(e), name) <==> {
            ||| e.event_type.keeps_active() && e.task is Some && event::task_name(e) == name
            ||| is_open_name(own, name) && !event::ends_name(e, name)
        },
{
    lemma_open_after(own, e);
    let longer = own.push(e);
    let n = own.len() as int;
    if is_open_name(longer, name) {
        let k = choose|k: int|
            0 <= k < longer.len() && #[trigger] is_open_at(longer, k) && event::task_name(longer[k])
                == name;
        assert(longer[k] == if k < n {
            own[k]
        } else {
            e
        });
    }
    if is_open_name(own, name) && !event::ends_name(e, name) {
        let k = choose|k: int|
            0 <= k < own.len() && #[trigger] is_open_at(own, k) && event::task_name(own[k]) == name;
        assert(is_open_at(longer, k));
    }
    if e.event_type.keeps_active() && e.task is Some {
        assert(is_open_at(longer, n));
    }
}

proof fn lemma_open_after(own: Seq<event::EventView>, e: event::EventView)
    ensures
        forall|i: int|
            0 <= i < own.len() ==> (#[trigger] is_open_at(own.push(e), i) <==> is_open_at(own, i)
                && !event::ends_name(e, event::task_name(own[i]))),
        is_open_at(own.push(e), own.len() as int) <==> e.event_type.keeps_active() && e.task is Some,
        has_open_task(own.push(e)) <==> {
            ||| e.event_type.keeps_active() && e.task is Some
            ||| exists|i: int|
                0 <= i < own.len() && #[trigger] is_open_at(own, i) && !event::ends_name(
                    e,
                    event::task_name(own[i]),
                )
        },
{
    let longer = own.push(e);
    let n = own.len() as int;
    assert(longer[n] == e);
    assert forall|i: int| 0 <= i < own.len() implies (#[trigger] is_open_at(longer, i)
        <==> is_open_at(own, i) && !event::ends_name(e, event::task_name(own[i]))) by {
        assert(longer[i] == own[i]);
        if is_open_at(longer, i) {
            assert(!event::ends_name(longer[n], event::task_name(own[i])));
            assert forall|j: int| i < j < own.len() implies !event::ends_name(
                #[trigger] own[j],
                event::task_name(own[i]),
            ) by {
                assert(longer[j] == own[j]);
            }
        }
        if is_open_at(own, i) && !event::ends_name(e, event::task_name(own[i])) {
            assert forall|j: int| i < j < longer.len() implies !event::ends_name(
                #[trigger] longer[j],
                event::task_name(longer[i]),
            ) by {
                if j < n {
                    assert(longer[j] == own[j]);
                }
            }
        }
    }
    assert(is_open_at(longer, n) <==> e.event_type.keeps_active() && e.task is Some);
    if has_open_task(longer) {
        let k = choose|k: int| 0 <= k < longer.len() && #[trigger] is_open_at(longer, k);
        assert(k < n ==> is_open_at(own, k));
    }
    if exists|i: int|
        0 <= i < own.len() && #[trigger] is_open_at(own, i) && !event::ends_name(
            e,
            event::task_name(own[i]),
        ) {
        let k = choose|i: int|
            0 <= i < own.len() && #[trigger] is_open_at(own, i) && !event::ends_name(
                e,
                event::task_name(own[i]),
            );
        assert(is_open_at(longer, k));
    }
}

/// The message of an event, where it is of type `et`.
pub open spec fn own_message_if(e: event::EventView, et: EventType) -> Option<Seq<char>> {
    if e.event_type == et {
        e.msg
    } else {
        None
    }
}

/// An event that sets a state determines the status from then on, but for the counts, to which it
/// adds itself, the last commit, which it replaces only if it has one, and the active tasks, of
/// which it ends at most its own.
pub proof fn law_state_event(
    agent: Seq<char>,
    own: Seq<event::EventView>,
    e: event::EventView,
    steps: Seq<event::Transition>,
)
    requires
        e.event_type.sets_state(),
    ensures
        ({
            let before = status_view(agent, own, steps);
            let after = status_view(agent, own.push(e), steps);
            &&& after.state == e.event_type.state_text()
            &&& after.has_active == (e.event_type.keeps_active() || exists|i: int|
                0 <= i < own.len() && #[trigger] is_open_at(own, i) && !event::ends_name(
                    e,
                    event::task_name(own[i]),
                ))
            &&& after.active_task == (if e.event_type.keeps_active() {
                e.task
            } else {
                None
            })
            &&& after.blocked_by == own_message_if(e, EventType::Blocked)
            &&& after.confused_about == own_message_if(e, EventType::Confused)
            &&& after.sudo_request == own_message_if(e, EventType::Sudo)
            &&& after.hitl_request == own_message_if(e, EventType::Hitl)
            &&& after.next_actions == action_texts(steps, Some(e.event_type))
            &&& after.last_commit == (if e.commit is Some {
                e.commit
            } else {
                before.last_commit
            })
            &&& after.completed_count == before.completed_count + (if e.event_type is Completed {
                1nat
            } else {
                0
            })
            &&& after.failed_count == before.failed_count + (if e.event_type is Failed {
                1nat
            } else {
                0
            })
        }),
{
    reveal(Seq::filter);
    assert(own.push(e).drop_last() =~= own);
    assert(own.push(e).last() == e);
    lemma_open_after(own, e);
}

proof fn lemma_open_name_without(
    before: Seq<event::EventView>,
    e: event::EventView,
    after: Seq<event::EventView>,
    name: Seq<char>,
)
    requires
        !e.event_type.sets_state(),
    ensures
        is_open_name(before + seq![e] + after, name) <==> is_open_name(before + after, name),
    decreases after.len(),
{
    let whole = before + seq![e] + after;
    if after.len() == 0 {
        assert(whole =~= before.push(e));
        assert(before + after =~= before);
        law_open_name(before, e, name);
    } else {
        let shorter = after.drop_last();
        assert(whole =~= (before + seq![e] + shorter).push(after.last()));
        assert(before + after =~= (before + shorter).push(after.last()));
        lemma_open_name_without(before, e, shorter, name);
        law_open_name(before + seq![e] + shorter, after.last(), name);
        law_open_name(before + shorter, after.last(), name);
    }
}

proof fn lemma_open_task_without(
    before: Seq<event::EventView>,
    e: event::EventView,
    after: Seq<event::EventView>,
)
    requires
        !e.event_type.sets_state(),
    ensures
        has_open_task(before + seq![e] + after) <==> has_open_task(before + after),
{
    let whole = before + seq![e] + after;
    let rest = before + after;
    if has_open_task(whole) {
        let k = choose|k: int| 0 <= k < whole.len() && #[trigger] is_open_at(whole, k);
        assert(is_open_name(whole, event::task_name(whole[k])));
        lemma_open_name_without(before, e, after, event::task_name(whole[k]));
    }
    if has_open_task(rest) {
        let k = choose|k: int| 0 <= k < rest.len() && #[trigger] is_open_at(rest, k);
        assert(is_open_name(rest, event::task_name(rest[k])));
        lemma_open_name_without(before, e, after, event::task_name(rest[k]));
    }
}

proof fn lemma_count_without(
    before: Seq<event::EventView>,
    e: event::EventView,
    after: Seq<event::EventView>,
    et: EventType,
)
    requires
        e.event_type != et,
    ensures
        count_of(before + seq![e] + after, et) == count_of(before + after, et),
{
    let p = |x: event::EventView| x.event_type == et;
    Seq::filter_distributes_over_add(before + seq![e], after, p);
    Seq::filter_distributes_over_add(before, seq![e], p);
    Seq::filter_distributes_over_add(before, after, p);
    event::lemma_filter_none(seq![e], p);
}

/// A note or a response, wherever it stands, leaves the status as it is, but for the last commit,
/// which is its own if it has one and no later event has.
pub proof fn law_stateless_event(
    agent: Seq<char>,
    before: Seq<event::EventView>,
    e: event::EventView,
    after: Seq<event::EventView>,
    steps: Seq<event::Transition>,
)
    requires
        !e.event_type.sets_state(),
    ensures
        status_view(agent, before + seq![e] + after, steps) == (StatusView {
            last_commit: if last_commit(after) is Some {
                last_commit(after)
            } else if e.commit is Some {
                e.commit
            } else {
                last_commit(before)
            },
            ..status_view(agent, before + after, steps)
        }),
{
    let sets = |x: event::EventView| x.event_type.sets_state();
    let commits = |x: event::EventView| x.commit is Some;
    event::lemma_latest_without(before, e, after, sets);
    event::lemma_latest_in_a_row(before + seq![e], after, commits);
    assert((before + seq![e]).drop_last() =~= before);
    let i = event::lemma_latest_is_last(after, commits);
    lemma_count_without(before, e, after, EventType::Completed);
    lemma_count_without(before, e, after, EventType::Failed);
    lemma_open_task_without(before, e, after);
}

/// The status of an agent depends on its own events only: in two logs that hold the same events of
/// the agent it is the same.
pub proof fn law_own_events_only(
    one: Seq<StatusView>,
    other: Seq<StatusView>,
    one_log: Seq<event::EventView>,
    other_log: Seq<event::EventView>,
    steps: Seq<event::Transition>,
    i: int,
    j: int,
)
    requires
        is_summary(one, one_log, steps),
        is_summary(other, other_log, steps),
        0 <= i < one.len(),
        0 <= j < other.len(),
        one[i].agent == other[j].agent,
        own_events(one_log, one[i].agent) == own_events(other_log, one[i].agent),
    ensures
        one[i] == other[j],
{
}

proof fn lemma_passive_state(state: Seq<char>)
    requires
        state == "idle"@ || state == "completed"@ || state == "failed"@,
    ensures
        state != "submitted"@,
        state != "working"@,
        state != "committed"@,
        state != "blocked"@,
        state != "confused"@,
        state != "sudo_pending"@,
        state != "hitl_pending"@,
{
    reveal_strlit("idle");
    reveal_strlit("completed");
    reveal_strlit("failed");
    reveal_strlit("submitted");
    reveal_strlit("working");
    reveal_strlit("committed");
    reveal_strlit("blocked");
    reveal_strlit("confused");
    reveal_strlit("sudo_pending");
    reveal_strlit("hitl_pending");
    assert("idle"@.len() == 4 && "completed"@.len() == 9 && "failed"@.len() == 6);
    assert("submitted"@.len() == 9 && "working"@.len() == 7 && "committed"@.len() == 9);
    assert("blocked"@.len() == 7 && "confused"@.len() == 8);
    assert("sudo_pending"@.len() == 12 && "hitl_pending"@.len() == 12);
    assert("completed"@[0] != "submitted"@[0]);
    assert("completed"@[3] != "committed"@[3]);
}

/// The state is one of ten. In an active state the agent has an active task, which it has in another
/// state only where an earlier one has not been ended. A task is shown only in an active state, and
/// the message of a blocker, a question or a request only in the state that it belongs to.
pub proof fn law_consistent_status(
    agent: Seq<char>,
    own: Seq<event::EventView>,
    steps: Seq<event::Transition>,
)
    ensures
        ({
            let s = status_view(agent, own, steps);
            let active = seq![
                "submitted"@,
                "working"@,
                "committed"@,
                "blocked"@,
                "confused"@,
                "sudo_pending"@,
                "hitl_pending"@,
            ];
            let passive = seq!["idle"@, "completed"@, "failed"@];
            &&& active.contains(s.state) || passive.contains(s.state)
            &&& s.has_active <==> active.contains(s.state) || has_open_task(own)
            &&& s.active_task is Some ==> active.contains(s.state)
            &&& s.blocked_by is Some ==> s.state == "blocked"@
            &&& s.confused_about is Some ==> s.state == "confused"@
            &&& s.sudo_request is Some ==> s.state == "sudo_pending"@
            &&& s.hitl_request is Some ==> s.state == "hitl_pending"@
        }),
{
    let i = event::lemma_latest_is_last(own, |e: event::EventView| e.event_type.sets_state());
    let active = seq![
        "submitted"@,
        "working"@,
        "committed"@,
        "blocked"@,
        "confused"@,
        "sudo_pending"@,
        "hitl_pending"@,
    ];
    let passive = seq!["idle"@, "completed"@, "failed"@];
    assert(active[0] == "submitted"@ && active[1] == "working"@ && active[2] == "committed"@);
    assert(active[3] == "blocked"@ && active[4] == "confused"@ && active[5] == "sudo_pending"@);
    assert(active[6] == "hitl_pending"@);
    assert(passive[0] == "idle"@ && passive[1] == "completed"@ && passive[2] == "failed"@);
    if !is_busy(current_event(own)) {
        lemma_passive_state(status_view(agent, own, steps).state);
    }
}

/// No agent has completed and failed more often than it has reported.
pub proof fn law_counts(agent: Seq<char>, own: Seq<event::EventView>, steps: Seq<event::Transition>)
    ensures
        status_view(agent, own, steps).completed_count + status_view(
            agent,
            own,
            steps,
        ).failed_count <= own.len(),
    decreases own.len(),
{
    reveal(Seq::filter);
    if own.len() > 0 {
        law_counts(agent, own.drop_last(), steps);
    }
}

/// An agent has a last commit once one of its events has a commit.
pub proof fn law_last_commit(
    agent: Seq<char>,
    own: Seq<event::EventView>,
    steps: Seq<event::Transition>,
)
    ensures
        status_view(agent, own, steps).last_commit is Some <==> exists|i: int|
            0 <= i < own.len() && (#[trigger] own[i]).commit is Some,
{
    let p = |e: event::EventView| e.commit is Some;
    let i = event::lemma_latest_is_last(own, p);
    if exists|k: int| 0 <= k < own.len() && (#[trigger] own[k]).commit is Some {
        let k = choose|k: int| 0 <= k < own.len() && (#[trigger] own[k]).commit is Some;
        assert(p(own[k]));
    }
}

/// In a terminal state no task is shown, nothing more is to be done, and the agent has an active task
/// only where an earlier one has not been ended.
pub proof fn law_terminal_state(agent: Seq<char>, own: Seq<event::EventView>)
    requires
        current_event(own) matches Some(e) && e.event_type.terminates(),
    ensures
        ({
            let s = status_view(agent, own, event::project_steps());
            &&& s.has_active == has_open_task(own)
            &&& s.active_task is None
            &&& s.next_actions == Seq::<Seq<char>>::empty()
        }),
{
    let e = current_event(own)->0;
    event::law_no_step_after_the_end(e.event_type);
    assert(status_view(agent, own, event::project_steps()).next_actions =~= Seq::empty());
}

proof fn lemma_ascii_word(label: &str, word: &str)
    requires
        is_ascii_chars(label@),
        label@.len() == word@.len(),
        forall|i: int| 0 <= i < label@.len() ==> text::ascii_lower(#[trigger] label@[i]) == word@[i],
    ensures
        text::lowercase(label@) == word@,
{
    assert(text::lowercase(label@) =~= word@);
}

proof fn lemma_submitted_steps()
    ensures
        event::successors(event::project_steps(), Some(EventType::Submitted)) == seq![
            EventType::Working,
            EventType::Failed,
        ],
{
    let steps = event::project_steps();
    let p = |t: event::Transition| t.from == Some(EventType::Submitted);
    let head = steps.take(2);
    let tail = steps.skip(4);
    let kept = seq![
        event::Transition { from: Some(EventType::Submitted), to: EventType::Working },
        event::Transition { from: Some(EventType::Submitted), to: EventType::Failed },
    ];
    assert(steps =~= head + kept + tail);
    assert forall|i: int| 0 <= i < head.len() implies !p(#[trigger] head[i]) by {
        assert(head[i] == steps[i]);
    }
    assert forall|i: int| 0 <= i < tail.len() implies !p(#[trigger] tail[i]) by {
        assert(tail[i] == steps[i + 4]);
    }
    lemma_filter_between(head, kept, tail, p);
    assert(event::successors(steps, Some(EventType::Submitted)) =~= seq![
        EventType::Working,
        EventType::Failed,
    ]);
}

proof fn lemma_filter_between(
    head: Seq<event::Transition>,
    kept: Seq<event::Transition>,
    tail: Seq<event::Transition>,
    p: spec_fn(event::Transition) -> bool,
)
    requires
        forall|i: int| 0 <= i < head.len() ==> !p(#[trigger] head[i]),
        kept.len() == 2,
        p(kept[0]),
        p(kept[1]),
        forall|i: int| 0 <= i < tail.len() ==> !p(#[trigger] tail[i]),
    ensures
        (head + kept + tail).filter(p) == kept,
{
    event::lemma_filter_none(head, p);
    event::lemma_filter_none(tail, p);
    Seq::filter_distributes_over_add(head, kept, p);
    Seq::filter_distributes_over_add(head + kept, tail, p);
    assert(kept.filter(p) =~= kept) by {
        reveal_with_fuel(Seq::filter, 3);
    }
}

proof fn lemma_submitted_labels()
    ensures
        text::lowercase("WORKING"@) == "working"@,
        text::lowercase("FAILED"@) == "failed"@,
{
    reveal_strlit("WORKING");
    reveal_strlit("working");
    reveal_strlit("FAILED");
    reveal_strlit("failed");
    lemma_ascii_word("WORKING", "working");
    lemma_ascii_word("FAILED", "failed");
}

/// A submitted task can be worked on or fail.
pub proof fn law_submitted_actions(agent: Seq<char>, own: Seq<event::EventView>)
    requires
        current_event(own) matches Some(e) && e.event_type is Submitted,
    ensures
        status_view(agent, own, event::project_steps()).next_actions == seq![
            "working"@,
            "failed"@,
        ],
{
    lemma_submitted_steps();
    lemma_submitted_labels();
    assert(action_texts(event::project_steps(), Some(EventType::Submitted)) =~= seq![
        "working"@,
        "failed"@,
    ]);
}

} // verus!
