//! The previous state of a task: which event of the log a task description refers to.
use crate::event::{EventType, RibbonEvent};
use crate::{event, names, status, text};
use vstd::prelude::*;

verus! {

/// Result of finding a previous state — the event type and the canonical task string.
pub type PreviousStateResult = (EventType, Option<String>);

/// The event puts `agent` into a state and names a task.
pub open spec fn is_candidate(e: event::EventView, agent: Seq<char>) -> bool {
    e.agent == agent && e.task is Some && e.event_type.sets_state()
}

/// The event is about the task that `task` describes, spelt in the same way but for the white space
/// around it.
pub open spec fn is_exact(e: event::EventView, agent: Seq<char>, task: Seq<char>) -> bool {
    is_candidate(e, agent) && text::trimmed(e.task->0) == text::trimmed(task)
}

/// The event is about the task `query`, in any spelling.
pub open spec fn is_same_name(e: event::EventView, agent: Seq<char>, query: Seq<char>) -> bool {
    is_candidate(e, agent) && event::task_name(e) == query
}

/// The task of the event contains `query`, or is contained in it.
pub open spec fn is_fuzzy(e: event::EventView, agent: Seq<char>, query: Seq<char>) -> bool {
    &&& is_candidate(e, agent)
    &&& text::is_substring(query, event::task_name(e)) || text::is_substring(
        event::task_name(e),
        query,
    )
}

/// The event ends the task `name` of `agent`.
pub open spec fn ends_task(e: event::EventView, agent: Seq<char>, name: Seq<char>) -> bool {
    e.agent == agent && event::ends_name(e, name)
}

/// The event at position `i` keeps a task of `agent` active, and no later event ends that task.
pub open spec fn is_live_at(events: Seq<event::EventView>, agent: Seq<char>, i: int) -> bool {
    &&& events[i].agent == agent
    &&& events[i].event_type.keeps_active()
    &&& events[i].task is Some
    &&& forall|j: int|
        i < j < events.len() ==> !ends_task(#[trigger] events[j], agent, event::task_name(events[i]))
}

/// `name` is an active task of `agent`.
pub open spec fn is_live_name(
    events: Seq<event::EventView>,
    agent: Seq<char>,
    name: Seq<char>,
) -> bool {
    exists|i: int|
        0 <= i < events.len() && #[trigger] is_live_at(events, agent, i) && event::task_name(
            events[i],
        ) == name
}

/// `agent` has exactly one active task.
pub open spec fn has_one_live_task(events: Seq<event::EventView>, agent: Seq<char>) -> bool {
    &&& exists|name: Seq<char>| is_live_name(events, agent, name)
    &&& forall|one: Seq<char>, other: Seq<char>|
        is_live_name(events, agent, one) && is_live_name(events, agent, other) ==> one == other
}

/// Of the first `n` events, the last one that keeps an active task of `agent` active.
pub open spec fn latest_live(events: Seq<event::EventView>, agent: Seq<char>, n: nat) -> Option<
    event::EventView,
>
    decreases n,
{
    if n == 0 {
        None
    } else if is_live_at(events, agent, n - 1) {
        Some(events[n - 1])
    } else {
        latest_live(events, agent, (n - 1) as nat)
    }
}

/// How a task description was matched, and the event that it was matched to.
pub enum MatchView {
    Exact(event::EventView),
    Fuzzy(event::EventView),
    OnlyActive(event::EventView),
    Unmatched,
}

/// The match of a description that fits no event: the last event that keeps the only active task of
/// `agent` active.
pub open spec fn fallback_view(events: Seq<event::EventView>, agent: Seq<char>) -> MatchView {
    if has_one_live_task(events, agent) {
        MatchView::OnlyActive(latest_live(events, agent, events.len())->0)
    } else {
        MatchView::Unmatched
    }
}

/// The match of the description `task` of a task of `agent`: the last event about a task that is
/// spelt so; failing that, the last event about that task in another letter case; failing that, the
/// last event about a task that contains it or is contained in it; failing that, the last event
/// that keeps the only active task of the agent active.
pub open spec fn match_view(
    events: Seq<event::EventView>,
    agent: Seq<char>,
    task: Seq<char>,
) -> MatchView {
    let query = text::normalized(task);
    match event::latest(events, |e: event::EventView| is_exact(e, agent, task)) {
        Some(e) => MatchView::Exact(e),
        None => match event::latest(events, |e: event::EventView| is_same_name(e, agent, query)) {
            Some(e) => MatchView::Exact(e),
            None => match event::latest(events, |e: event::EventView| is_fuzzy(e, agent, query)) {
                Some(e) => MatchView::Fuzzy(e),
                None => fallback_view(events, agent),
            },
        },
    }
}

/// The matched event.
pub open spec fn matched_event(m: MatchView) -> Option<event::EventView> {
    match m {
        MatchView::Exact(e) => Some(e),
        MatchView::Fuzzy(e) => Some(e),
        MatchView::OnlyActive(e) => Some(e),
        MatchView::Unmatched => None,
    }
}

/// What `find_previous_state` returns for a matched event: its type and its task.
pub open spec fn state_of(e: event::EventView) -> (EventType, Option<Seq<char>>) {
    (e.event_type, e.task)
}

/// The previous state of the task that `task` describes.
pub open spec fn previous_state(
    events: Seq<event::EventView>,
    agent: Seq<char>,
    task: Seq<char>,
) -> Option<(EventType, Option<Seq<char>>)> {
    match matched_event(match_view(events, agent, task)) {
        Some(e) => Some(state_of(e)),
        None => None,
    }
}

/// What a result says.
pub open spec fn result_view(r: PreviousStateResult) -> (EventType, Option<Seq<char>>) {
    (r.0, text::opt_view(r.1))
}

/// The task of a result without the white space around it.
pub open spec fn canonical_text(p: PreviousStateResult) -> Seq<char> {
    match p.1 {
        Some(t) => text::trimmed(t@),
        None => Seq::empty(),
    }
}

/// The task of a result without the white space around it.
fn canonical(p: &PreviousStateResult) -> (r: &str)
    ensures
        r@ == canonical_text(*p),
{
    match &p.1 {
        Some(t) => t.as_str().trim(),
        None => {
            proof {
                reveal_strlit("");
            }
            let none = "";
            assert(none@ =~= Seq::empty());
            none
        },
    }
}

/// How a task description was matched.
#[derive(Debug)]
pub enum TaskMatch {
    /// The task of an event is the described one, but for blank margins and letter case.
    Exact(PreviousStateResult),
    /// The task of an event contains the description, or is contained in it.
    Fuzzy(PreviousStateResult),
    /// The agent has only one active task.
    OnlyActive(PreviousStateResult),
    /// Nothing matched; the names of the active tasks of the agent, in ascending order.
    Unmatched(Vec<String>),
}

impl TaskMatch {
    /// The match is the one that `m` tells, in a log of `events` for `agent`.
    pub open spec fn tells(
        self,
        m: MatchView,
        events: Seq<event::EventView>,
        agent: Seq<char>,
    ) -> bool {
        match (self, m) {
            (TaskMatch::Exact(p), MatchView::Exact(e)) => result_view(p) == state_of(e),
            (TaskMatch::Fuzzy(p), MatchView::Fuzzy(e)) => result_view(p) == state_of(e),
            (TaskMatch::OnlyActive(p), MatchView::OnlyActive(e)) => result_view(p) == state_of(e),
            (TaskMatch::Unmatched(active), MatchView::Unmatched) => {
                &&& names::ascending(names::texts(active@))
                &&& forall|n: Seq<char>| #[trigger]
                    names::texts(active@).contains(n) <==> is_live_name(events, agent, n)
            },
            _ => false,
        }
    }

    /// The lines that tell a user how the task was matched, where that needs telling: nothing on an
    /// exact match, the matched task on a guess, and on a failure the active tasks of the agent.
    pub open spec fn diagnostic_texts(self, agent: Seq<char>, task: Seq<char>) -> Seq<Seq<char>> {
        match self {
            TaskMatch::Exact(_) => Seq::empty(),
            TaskMatch::Fuzzy(p) => seq![
                "  ℹ️  Matched task via fuzzy search: \""@ + canonical_text(p) + "\""@,
            ],
            TaskMatch::OnlyActive(p) => seq![
                "  ℹ️  Matched agent's only active task: \""@ + canonical_text(p) + "\""@,
            ],
            TaskMatch::Unmatched(active) => if active@.len() == 0 {
                Seq::empty()
            } else {
                seq![
                    "  ⚠️  Could not match task \""@ + text::trimmed(task)
                        + "\" for agent \""@ + agent + "\"."@,
                    "  Active tasks for "@ + agent + ":"@,
                ] + active@.map_values(|name: String| "    - "@ + name@) + seq![
                    "  HINT: Copy the exact task name from above, or from `ribbon query --agent "@
                        + agent + "`."@,
                ]
            },
        }
    }

    /// The lines that tell a user how the task was matched.
    pub fn diagnostics(&self, agent: &str, task: &str) -> (r: Vec<String>)
        ensures
            names::texts(r@) == self.diagnostic_texts(agent@, task@),
    {
        let mut lines: Vec<String> = Vec::new();
        match self {
            TaskMatch::Exact(_) => {},
            TaskMatch::Fuzzy(p) => {
                let mut line = String::from("  ℹ️  Matched task via fuzzy search: \"");
                line.append(canonical(p));
                line.append("\"");
                lines.push(line);
            },
            TaskMatch::OnlyActive(p) => {
                let mut line = String::from(
                    "  ℹ️  Matched agent's only active task: \"",
                );
                line.append(canonical(p));
                line.append("\"");
                lines.push(line);
            },
            TaskMatch::Unmatched(active) => if active.len() > 0 {
                let mut line = String::from("  ⚠️  Could not match task \"");
                line.append(task.trim());
                line.append("\" for agent \"");
                line.append(agent);
                line.append("\".");
                lines.push(line);
                let mut line = String::from("  Active tasks for ");
                line.append(agent);
                line.append(":");
                lines.push(line);
                let ghost head = names::texts(lines@);
                assert(head =~= seq![
                    "  ⚠️  Could not match task \""@ + text::trimmed(task@)
                        + "\" for agent \""@ + agent@ + "\"."@,
                    "  Active tasks for "@ + agent@ + ":"@,
                ]);
                let ghost listed = active@.map_values(|name: String| "    - "@ + name@);
                assert(head + listed.take(0) =~= head);
                for i in 0..active.len()
                    invariant
                        listed == active@.map_values(|name: String| "    - "@ + name@),
                        names::texts(lines@) == head + listed.take(i as int),
                {
                    let mut line = String::from("    - ");
                    line.append(active[i].as_str());
                    let ghost before = lines@;
                    lines.push(line);
                    assert(names::texts(lines@) =~= names::texts(before).push(listed[i as int]));
                    assert(head + listed.take(i + 1) =~= (head + listed.take(i as int)).push(
                        listed[i as int],
                    ));
                }
                let mut line = String::from(
                    "  HINT: Copy the exact task name from above, or from `ribbon query --agent ",
                );
                line.append(agent);
                line.append("`.");
                let ghost before = lines@;
                lines.push(line);
                assert(listed.take(active.len() as int) =~= listed);
                assert(names::texts(lines@) =~= names::texts(before) + seq![line@]);
                assert(names::texts(lines@) =~= head + listed + seq![line@]);
            },
        }
        assert(names::texts(lines@) =~= self.diagnostic_texts(agent@, task@));
        lines
    }

    /// The type and the task of the matched event.
    pub fn into_previous_state(self) -> (r: Option<PreviousStateResult>)
        ensures
            r == (match self {
                TaskMatch::Exact(p) => Some(p),
                TaskMatch::Fuzzy(p) => Some(p),
                TaskMatch::OnlyActive(p) => Some(p),
                TaskMatch::Unmatched(_) => None,
            }),
    {
        match self {
            TaskMatch::Exact(p) => Some(p),
            TaskMatch::Fuzzy(p) => Some(p),
            TaskMatch::OnlyActive(p) => Some(p),
            TaskMatch::Unmatched(_) => None,
        }
    }
}

/// The type and the task of an event.
fn state_result(e: &RibbonEvent) -> (r: PreviousStateResult)
    ensures
        result_view(r) == state_of(e@),
{
    (e.event_type, text::clone_text(&e.task))
}

/// The last event of `agent` that is about a task spelt as `task`, but for the white space
/// around it.
fn find_exact(events: &[RibbonEvent], agent: &String, task: &str) -> (r: Option<
    PreviousStateResult,
>)
    ensures
        (match r {
            Some(p) => Some(result_view(p)),
            None => None,
        }) == (match event::latest(
            event::event_views(events@),
            |e: event::EventView| is_exact(e, agent@, task@),
        ) {
            Some(e) => Some(state_of(e)),
            None => None,
        }),
{
    let ghost views = event::event_views(events@);
    let ghost p = |e: event::EventView| is_exact(e, agent@, task@);
    let wanted = String::from(task.trim());
    let mut i: usize = events.len();
    assert(views.take(i as int) =~= views);
    while i > 0
        invariant
            i <= events.len(),
            wanted@ == text::trimmed(task@),
            views == event::event_views(events@),
            p == (|e: event::EventView| is_exact(e, agent@, task@)),
            event::latest(views, p) == event::latest(views.take(i as int), p),
        decreases i,
    {
        i = i - 1;
        let e = &events[i];
        assert(views.take(i + 1).drop_last() =~= views.take(i as int));
        assert(views.take(i + 1).last() == e@);
        if e.agent == *agent {
            if let Some(t) = &e.task {
                if String::from(t.as_str().trim()) == wanted && e.event_type != EventType::Note
                    && !e.event_type.is_response() {
                    return Some(state_result(e));
                }
            }
        }
    }
    None
}

/// The last event of `agent` that is about the task `query`, in any spelling.
fn find_same_name(events: &[RibbonEvent], agent: &String, query: &String) -> (r: Option<
    PreviousStateResult,
>)
    ensures
        (match r {
            Some(p) => Some(result_view(p)),
            None => None,
        }) == (match event::latest(
            event::event_views(events@),
            |e: event::EventView| is_same_name(e, agent@, query@),
        ) {
            Some(e) => Some(state_of(e)),
            None => None,
        }),
{
    let ghost views = event::event_views(events@);
    let ghost p = |e: event::EventView| is_same_name(e, agent@, query@);
    let mut i: usize = events.len();
    assert(views.take(i as int) =~= views);
    while i > 0
        invariant
            i <= events.len(),
            views == event::event_views(events@),
            p == (|e: event::EventView| is_same_name(e, agent@, query@)),
            event::latest(views, p) == event::latest(views.take(i as int), p),
        decreases i,
    {
        i = i - 1;
        let e = &events[i];
        assert(views.take(i + 1).drop_last() =~= views.take(i as int));
        assert(views.take(i + 1).last() == e@);
        if e.agent == *agent {
            if let Some(t) = &e.task {
                if text::normalize_task(t.as_str()) == *query && e.event_type != EventType::Note
                    && !e.event_type.is_response() {
                    return Some(state_result(e));
                }
            }
        }
    }
    None
}

/// The last event of `agent` whose task contains `query`, or is contained in it.
fn find_fuzzy(events: &[RibbonEvent], agent: &String, query: &String) -> (r: Option<
    PreviousStateResult,
>)
    ensures
        (match r {
            Some(p) => Some(result_view(p)),
            None => None,
        }) == (match event::latest(
            event::event_views(events@),
            |e: event::EventView| is_fuzzy(e, agent@, query@),
        ) {
            Some(e) => Some(state_of(e)),
            None => None,
        }),
{
    let ghost views = event::event_views(events@);
    let ghost p = |e: event::EventView| is_fuzzy(e, agent@, query@);
    let mut i: usize = events.len();
    assert(views.take(i as int) =~= views);
    while i > 0
        invariant
            i <= events.len(),
            views == event::event_views(events@),
            p == (|e: event::EventView| is_fuzzy(e, agent@, query@)),
            event::latest(views, p) == event::latest(views.take(i as int), p),
        decreases i,
    {
        i = i - 1;
        let e = &events[i];
        assert(views.take(i + 1).drop_last() =~= views.take(i as int));
        assert(views.take(i + 1).last() == e@);
        if e.agent == *agent {
            if let Some(t) = &e.task {
                let name = text::normalize_task(t.as_str());
                if (text::contains_text(name.as_str(), query.as_str()) || text::contains_text(
                    query.as_str(),
                    name.as_str(),
                )) && e.event_type != EventType::Note && !e.event_type.is_response() {
                    return Some(state_result(e));
                }
            }
        }
    }
    None
}

/// An event from position `from` on ends the task `name` of `agent`.
spec fn ends_from(
    events: Seq<event::EventView>,
    agent: Seq<char>,
    from: int,
    name: Seq<char>,
) -> bool {
    exists|k: int| from <= k < events.len() && ends_task(#[trigger] events[k], agent, name)
}

/// `name` is the active task of one of the events from position `from` on.
spec fn is_live_from(
    events: Seq<event::EventView>,
    agent: Seq<char>,
    from: int,
    name: Seq<char>,
) -> bool {
    exists|k: int|
        from <= k < events.len() && #[trigger] is_live_at(events, agent, k) && event::task_name(
            events[k],
        ) == name
}

/// The match by the only active task of `agent`; where it has none or several, their names.
fn find_only_active(events: &[RibbonEvent], agent: &String) -> (r: TaskMatch)
    ensures
        r.tells(
            fallback_view(event::event_views(events@), agent@),
            event::event_views(events@),
            agent@,
        ),
{
    let ghost views = event::event_views(events@);
    let mut ended: Vec<String> = Vec::new();
    let mut active: Vec<String> = Vec::new();
    let mut found: Option<PreviousStateResult> = None;
    let mut i: usize = events.len();
    while i > 0
        invariant
            i <= events.len(),
            views == event::event_views(events@),
            names::ascending(names::texts(ended@)),
            forall|n: Seq<char>| #[trigger]
                names::texts(ended@).contains(n) <==> ends_from(views, agent@, i as int, n),
            names::ascending(names::texts(active@)),
            forall|n: Seq<char>| #[trigger]
                names::texts(active@).contains(n) <==> is_live_from(views, agent@, i as int, n),
            found is None ==> active.len() == 0,
            match found {
                None => latest_live(views, agent@, views.len()) == latest_live(
                    views,
                    agent@,
                    i as nat,
                ),
                Some(f) => latest_live(views, agent@, views.len()) matches Some(e) && result_view(f)
                    == state_of(e),
            },
        decreases i,
    {
        i = i - 1;
        let e = &events[i];
        let ghost ended_later = names::texts(ended@);
        let ghost active_later = names::texts(active@);
        let ghost at = i as int;
        assert(views[at] == e@);
        assert(is_live_at(views, agent@, at) <==> e@.agent == agent@ && e@.event_type.keeps_active()
            && e@.task is Some && !ended_later.contains(event::task_name(e@))) by {
            let name = event::task_name(e@);
            assert(ended_later.contains(name) <==> ends_from(views, agent@, at + 1, name));
        }
        if e.agent == *agent {
            if let Some(t) = &e.task {
                let name = text::normalize_task(t.as_str());
                if e.event_type.is_terminal() {
                    names::add_name(&mut ended, name);
                } else if e.event_type.is_active() && !names::has_name(&ended, &name) {
                    if found.is_none() {
                        found = Some(state_result(e));
                    }
                    names::add_name(&mut active, name);
                }
            }
        }
        assert forall|n: Seq<char>| #[trigger]
            names::texts(ended@).contains(n) <==> ends_from(views, agent@, at, n) by {
            assert(ended_later.contains(n) <==> ends_from(views, agent@, at + 1, n));
            if ends_from(views, agent@, at, n) {
                let k = choose|k: int|
                    at <= k < views.len() && ends_task(#[trigger] views[k], agent@, n);
                if k > at {
                    assert(ends_from(views, agent@, at + 1, n));
                }
            }
        }
        assert forall|n: Seq<char>| #[trigger]
            names::texts(active@).contains(n) <==> is_live_from(views, agent@, at, n) by {
            assert(active_later.contains(n) <==> is_live_from(views, agent@, at + 1, n));
            if is_live_from(views, agent@, at, n) {
                let k = choose|k: int|
                    at <= k < views.len() && #[trigger] is_live_at(views, agent@, k)
                        && event::task_name(views[k]) == n;
                if k > at {
                    assert(is_live_from(views, agent@, at + 1, n));
                }
            }
        }
    }
    let ghost live = names::texts(active@);
    assert forall|n: Seq<char>| #[trigger]
        live.contains(n) <==> is_live_name(views, agent@, n) by {
        assert(live.contains(n) <==> is_live_from(views, agent@, 0, n));
    }
    if active.len() == 1 {
        proof {
            assert(live.contains(live[0]));
            assert forall|one: Seq<char>, other: Seq<char>|
                is_live_name(views, agent@, one) && is_live_name(
                    views,
                    agent@,
                    other,
                ) implies one == other by {
                assert(live.contains(one) && live.contains(other));
            }
            assert(has_one_live_task(views, agent@));
        }
        if let Some(f) = found {
            return TaskMatch::OnlyActive(f);
        }
    }
    proof {
        if has_one_live_task(views, agent@) {
            let name = choose|name: Seq<char>| is_live_name(views, agent@, name);
            assert(live.contains(name));
            assert forall|k: int| 0 <= k < live.len() implies live[k] == name by {
                assert(live.contains(live[k]));
                assert(is_live_name(views, agent@, live[k]));
            }
            text::lemma_before_irreflexive(name);
            assert(live.len() >= 2 ==> text::text_before(live[0], live[1]));
        }
    }
    TaskMatch::Unmatched(active)
}

/// Matches a task description of an agent against the log.
///
/// Matching is done in three stages:
/// 1. **Exact match** after trimming (preferred — most precise), then in any letter case
/// 2. **Fuzzy substring match** — either string contains the other (case-insensitive)
/// 3. **Agent-wide fallback** — if the agent has exactly one active task, use that
pub fn match_task(events: &[RibbonEvent], agent: &str, task: &str) -> (r: TaskMatch)
    ensures
        r.tells(
            match_view(event::event_views(events@), agent@, task@),
            event::event_views(events@),
            agent@,
        ),
{
    let agent = String::from(agent);
    let query = text::normalize_task(task);
    if let Some(p) = find_exact(events, &agent, task) {
        return TaskMatch::Exact(p);
    }
    if let Some(p) = find_same_name(events, &agent, &query) {
        return TaskMatch::Exact(p);
    }
    if let Some(p) = find_fuzzy(events, &agent, &query) {
        return TaskMatch::Fuzzy(p);
    }
    find_only_active(events, &agent)
}

/// Find the previous non-note event for a specific agent+task combination.
///
/// The task is matched as [`match_task`] does. Returns (EventType, canonical_task_string) of the
/// last state-changing event, or None if this is a new task. The canonical task string is the
/// one from the matched event — callers should use it for consistency in subsequent events.
pub fn find_previous_state(events: &[RibbonEvent], agent: &str, task: &str) -> (r: Option<
    PreviousStateResult,
>)
    ensures
        (match r {
            Some(p) => Some(result_view(p)),
            None => None,
        }) == previous_state(event::event_views(events@), agent@, task@),
{
    match_task(events, agent, task).into_previous_state()
}

proof fn lemma_exact_is_same_name(e: event::EventView, agent: Seq<char>, task: Seq<char>)
    requires
        is_exact(e, agent, task),
    ensures
        is_same_name(e, agent, text::normalized(task)),
{
}

proof fn lemma_same_name_is_fuzzy(e: event::EventView, agent: Seq<char>, query: Seq<char>)
    requires
        is_same_name(e, agent, query),
    ensures
        is_fuzzy(e, agent, query),
{
    assert(query.subrange(0, query.len() as int) =~= query);
    assert(text::occurs_at(query, query, 0));
}

/// Where the agent has an active task, the last event that keeps one active exists.
pub(crate) proof fn lemma_latest_live(events: Seq<event::EventView>, agent: Seq<char>, n: nat) -> (i: int)
    requires
        n <= events.len(),
    ensures
        match latest_live(events, agent, n) {
            Some(e) => {
                &&& 0 <= i < n
                &&& events[i] == e
                &&& is_live_at(events, agent, i)
                &&& forall|j: int| i < j < n ==> !#[trigger] is_live_at(events, agent, j)
            },
            None => forall|j: int| 0 <= j < n ==> !#[trigger] is_live_at(events, agent, j),
        },
    decreases n,
{
    if n == 0 {
        0
    } else if is_live_at(events, agent, n - 1) {
        n - 1
    } else {
        lemma_latest_live(events, agent, (n - 1) as nat)
    }
}

/// A match is exact where an event is about the task in any spelling, and the matched event is.
pub proof fn law_exact_name(events: Seq<event::EventView>, agent: Seq<char>, task: Seq<char>)
    ensures
        match_view(events, agent, task) is Exact <==> exists|i: int|
            0 <= i < events.len() && is_same_name(
                #[trigger] events[i],
                agent,
                text::normalized(task),
            ),
        match_view(events, agent, task) matches MatchView::Exact(e) ==> events.contains(e)
            && is_same_name(e, agent, text::normalized(task)),
{
    let query = text::normalized(task);
    let p = |e: event::EventView| is_exact(e, agent, task);
    let q = |e: event::EventView| is_same_name(e, agent, query);
    let i = event::lemma_latest_is_last(events, p);
    let j = event::lemma_latest_is_last(events, q);
    if event::latest(events, p) is Some {
        lemma_exact_is_same_name(events[i], agent, task);
    }
    if exists|k: int| 0 <= k < events.len() && is_same_name(#[trigger] events[k], agent, query) {
        let k = choose|k: int|
            0 <= k < events.len() && is_same_name(#[trigger] events[k], agent, query);
        assert(q(events[k]));
    }
}

/// Descriptions that are the same after trimming have the same match.
pub proof fn law_spelling(
    events: Seq<event::EventView>,
    agent: Seq<char>,
    task: Seq<char>,
    other: Seq<char>,
)
    requires
        text::trimmed(task) == text::trimmed(other),
    ensures
        match_view(events, agent, task) == match_view(events, agent, other),
{
    assert((|e: event::EventView| is_exact(e, agent, task)) =~= (|e: event::EventView|
        is_exact(e, agent, other)));
}

/// White space around a description makes no difference.
pub proof fn law_margins(
    events: Seq<event::EventView>,
    agent: Seq<char>,
    task: Seq<char>,
    before: Seq<char>,
    after: Seq<char>,
)
    requires
        text::is_blank(before),
        text::is_blank(after),
    ensures
        match_view(events, agent, before + task + after) == match_view(events, agent, task),
{
    text::law_blank_margins(before, task, after);
    law_spelling(events, agent, before + task + after, task);
}

/// The case of the letters of a description decides at most between events about the same task.
/// Where no event of the agent is about a task spelt as one of two descriptions that are the same
/// after trimming and lowercasing, it makes no difference at all.
pub proof fn law_case(
    events: Seq<event::EventView>,
    agent: Seq<char>,
    task: Seq<char>,
    other: Seq<char>,
)
    requires
        text::normalized(task) == text::normalized(other),
    ensures
        match (match_view(events, agent, task), match_view(events, agent, other)) {
            (MatchView::Exact(a), MatchView::Exact(b)) => event::task_name(a) == event::task_name(b),
            (a, b) => a == b,
        },
        (forall|i: int|
            0 <= i < events.len() ==> !is_exact(#[trigger] events[i], agent, task) && !is_exact(
                events[i],
                agent,
                other,
            )) ==> match_view(events, agent, task) == match_view(events, agent, other),
{
    law_exact_name(events, agent, task);
    law_exact_name(events, agent, other);
    let i = event::lemma_latest_is_last(events, |e: event::EventView| is_exact(e, agent, task));
    let j = event::lemma_latest_is_last(events, |e: event::EventView| is_exact(e, agent, other));
}

/// The matched event is an event of the log. It belongs to the agent, names a task and sets a
/// state: it is neither a note nor a response.
pub proof fn law_matched_event(events: Seq<event::EventView>, agent: Seq<char>, task: Seq<char>)
    ensures
        matched_event(match_view(events, agent, task)) matches Some(e) ==> events.contains(e)
            && is_candidate(e, agent),
{
    let query = text::normalized(task);
    law_exact_name(events, agent, task);
    let j = event::lemma_latest_is_last(
        events,
        |e: event::EventView| is_fuzzy(e, agent, query),
    );
    lemma_fallback(events, agent);
}

/// The fallback finds an event where the agent has one active task.
proof fn lemma_fallback(events: Seq<event::EventView>, agent: Seq<char>) -> (i: int)
    ensures
        has_one_live_task(events, agent) ==> {
            &&& 0 <= i < events.len()
            &&& fallback_view(events, agent) == MatchView::OnlyActive(events[i])
            &&& is_live_at(events, agent, i)
            &&& forall|j: int|
                i < j < events.len() ==> !#[trigger] is_live_at(events, agent, j)
        },
{
    let i = lemma_latest_live(events, agent, events.len());
    if has_one_live_task(events, agent) {
        let name = choose|name: Seq<char>| is_live_name(events, agent, name);
        let k = choose|k: int|
            0 <= k < events.len() && #[trigger] is_live_at(events, agent, k) && event::task_name(
                events[k],
            ) == name;
        assert(is_live_at(events, agent, k));
    }
    i
}

/// An exact match is preferred, and of several the last: where an event of the agent is about a
/// task that is spelt as described, so is the matched event, which is that event or a later one and
/// the last one of this spelling.
pub proof fn law_exact_preferred(
    events: Seq<event::EventView>,
    agent: Seq<char>,
    task: Seq<char>,
    i: int,
)
    requires
        0 <= i < events.len(),
        is_exact(events[i], agent, task),
    ensures
        exists|k: int|
            #![trigger events[k]]
            {
                &&& i <= k < events.len()
                &&& is_exact(events[k], agent, task)
                &&& forall|j: int|
                    k < j < events.len() ==> !is_exact(#[trigger] events[j], agent, task)
                &&& match_view(events, agent, task) == MatchView::Exact(events[k])
            },
{
    let p = |e: event::EventView| is_exact(e, agent, task);
    let k = event::lemma_latest_is_last(events, p);
    assert(p(events[i]));
    assert forall|j: int| k < j < events.len() implies !is_exact(
        #[trigger] events[j],
        agent,
        task,
    ) by {
        assert(!p(events[j]));
    }
}

/// Where no event of the agent is about a task that is spelt as described, but one is about that
/// task in another letter case, the last such event is matched.
pub proof fn law_same_name_next(
    events: Seq<event::EventView>,
    agent: Seq<char>,
    task: Seq<char>,
    i: int,
)
    requires
        0 <= i < events.len(),
        is_same_name(events[i], agent, text::normalized(task)),
        forall|j: int| 0 <= j < events.len() ==> !is_exact(#[trigger] events[j], agent, task),
    ensures
        exists|k: int|
            #![trigger events[k]]
            {
                &&& i <= k < events.len()
                &&& is_same_name(events[k], agent, text::normalized(task))
                &&& forall|j: int|
                    k < j < events.len() ==> !is_same_name(
                        #[trigger] events[j],
                        agent,
                        text::normalized(task),
                    )
                &&& match_view(events, agent, task) == MatchView::Exact(events[k])
            },
{
    let p = |e: event::EventView| is_exact(e, agent, task);
    let q = |e: event::EventView| is_same_name(e, agent, text::normalized(task));
    let none = event::lemma_latest_is_last(events, p);
    let k = event::lemma_latest_is_last(events, q);
    assert(q(events[i]));
    assert forall|j: int| k < j < events.len() implies !is_same_name(
        #[trigger] events[j],
        agent,
        text::normalized(task),
    ) by {
        assert(!q(events[j]));
    }
}

/// An event that has just been appended is the previous state of its task.
pub proof fn law_newest_state(events: Seq<event::EventView>, e: event::EventView)
    requires
        e.task is Some,
        e.event_type.sets_state(),
    ensures
        match_view(events.push(e), e.agent, e.task->0) == MatchView::Exact(e),
        previous_state(events.push(e), e.agent, e.task->0) == Some((e.event_type, e.task)),
{
    assert(events.push(e).last() == e);
}

proof fn lemma_live_after(events: Seq<event::EventView>, e: event::EventView, agent: Seq<char>)
    ensures
        forall|i: int|
            0 <= i < events.len() ==> (#[trigger] is_live_at(events.push(e), agent, i)
                <==> is_live_at(events, agent, i) && !ends_task(
                e,
                agent,
                event::task_name(events[i]),
            )),
        is_live_at(events.push(e), agent, events.len() as int) <==> e.agent == agent
            && e.event_type.keeps_active() && e.task is Some,
{
    let longer = events.push(e);
    let n = events.len() as int;
    assert(longer[n] == e);
    assert forall|i: int| 0 <= i < events.len() implies (#[trigger] is_live_at(longer, agent, i)
        <==> is_live_at(events, agent, i) && !ends_task(
        e,
        agent,
        event::task_name(events[i]),
    )) by {
        let name = event::task_name(events[i]);
        assert(longer[i] == events[i]);
        if is_live_at(longer, agent, i) {
            assert(!ends_task(longer[n], agent, name));
            assert forall|j: int| i < j < events.len() implies !ends_task(
                #[trigger] events[j],
                agent,
                name,
            ) by {
                assert(longer[j] == events[j]);
            }
        }
        if is_live_at(events, agent, i) && !ends_task(e, agent, name) {
            assert forall|j: int| i < j < longer.len() implies !ends_task(
                #[trigger] longer[j],
                agent,
                name,
            ) by {
                if j < n {
                    assert(longer[j] == events[j]);
                }
            }
        }
    }
}

/// After an appended event a task of the agent is active where that event keeps it active, or where
/// it was active before and that event does not end it. A task that was ended becomes active again
/// when it is submitted again.
pub proof fn law_live_name(
    events: Seq<event::EventView>,
    e: event::EventView,
    agent: Seq<char>,
    name: Seq<char>,
)
    ensures
        is_live_name(events.push(e), agent, name) <==> {
            ||| e.agent == agent && e.event_type.keeps_active() && e.task is Some
                && event::task_name(e) == name
            ||| is_live_name(events, agent, name) && !ends_task(e, agent, name)
        },
{
    lemma_live_after(events, e, agent);
    let longer = events.push(e);
    let n = events.len() as int;
    if is_live_name(longer, agent, name) {
        let k = choose|k: int|
            0 <= k < longer.len() && #[trigger] is_live_at(longer, agent, k) && event::task_name(
                longer[k],
            ) == name;
        assert(longer[k] == if k < n {
            events[k]
        } else {
            e
        });
    }
    if is_live_name(events, agent, name) && !ends_task(e, agent, name) {
        let k = choose|k: int|
            0 <= k < events.len() && #[trigger] is_live_at(events, agent, k) && event::task_name(
                events[k],
            ) == name;
        assert(is_live_at(longer, agent, k));
    }
    if e.agent == agent && e.event_type.keeps_active() && e.task is Some {
        assert(is_live_at(longer, agent, n));
    }
}

/// The active tasks among which a match is sought are those that the status of the agent counts as
/// active.
pub proof fn law_active_tasks(events: Seq<event::EventView>, agent: Seq<char>, name: Seq<char>)
    ensures
        is_live_name(events, agent, name) <==> status::is_open_name(
            status::own_events(events, agent),
            name,
        ),
    decreases events.len(),
{
    reveal(Seq::filter);
    if events.len() > 0 {
        let shorter = events.drop_last();
        let e = events.last();
        assert(events =~= shorter.push(e));
        law_active_tasks(shorter, agent, name);
        law_live_name(shorter, e, agent, name);
        status::law_appended_event(shorter, e, agent);
        status::law_open_name(status::own_events(shorter, agent), e, name);
    }
}

/// Without the event at a position, the events after it move up by one.
spec fn shifted(at: int, i: int) -> int {
    if i < at {
        i
    } else {
        i + 1
    }
}

proof fn lemma_live_without(
    before: Seq<event::EventView>,
    e: event::EventView,
    after: Seq<event::EventView>,
    agent: Seq<char>,
)
    requires
        !is_candidate(e, agent),
    ensures
        ({
            let whole = before + seq![e] + after;
            let rest = before + after;
            let at = before.len() as int;
            &&& !is_live_at(whole, agent, at)
            &&& forall|i: int|
                0 <= i < rest.len() ==> whole[shifted(at, i)] == rest[i] && (
                #[trigger] is_live_at(rest, agent, i) <==> is_live_at(
                    whole,
                    agent,
                    shifted(at, i),
                ))
        }),
{
    let whole = before + seq![e] + after;
    let rest = before + after;
    let at = before.len() as int;
    assert(whole[at] == e);
    assert forall|i: int| 0 <= i < rest.len() implies whole[shifted(at, i)] == rest[i] && (
    #[trigger] is_live_at(rest, agent, i) <==> is_live_at(whole, agent, shifted(at, i))) by {
        let name = event::task_name(rest[i]);
        let k = shifted(at, i);
        if is_live_at(rest, agent, i) {
            assert forall|j: int| k < j < whole.len() implies !ends_task(
                #[trigger] whole[j],
                agent,
                name,
            ) by {
                if j < at {
                    assert(whole[j] == rest[j]);
                } else if j > at {
                    assert(whole[j] == rest[j - 1]);
                }
            }
        }
        if is_live_at(whole, agent, k) {
            assert forall|j: int| i < j < rest.len() implies !ends_task(
                #[trigger] rest[j],
                agent,
                name,
            ) by {
                assert(rest[j] == whole[shifted(at, j)]);
            }
        }
    }
}

/// Notes, responses, events without a task and events of other agents make no difference, wherever
/// they stand.
pub proof fn law_irrelevant_event(
    before: Seq<event::EventView>,
    e: event::EventView,
    after: Seq<event::EventView>,
    agent: Seq<char>,
    task: Seq<char>,
)
    requires
        !is_candidate(e, agent),
    ensures
        match_view(before + seq![e] + after, agent, task) == match_view(
            before + after,
            agent,
            task,
        ),
        forall|n: Seq<char>| #[trigger]
            is_live_name(before + seq![e] + after, agent, n) <==> is_live_name(
                before + after,
                agent,
                n,
            ),
{
    let whole = before + seq![e] + after;
    let rest = before + after;
    let at = before.len() as int;
    let query = text::normalized(task);
    lemma_live_without(before, e, after, agent);
    assert forall|n: Seq<char>| #[trigger]
        is_live_name(whole, agent, n) <==> is_live_name(rest, agent, n) by {
        if is_live_name(whole, agent, n) {
            let k = choose|k: int|
                0 <= k < whole.len() && #[trigger] is_live_at(whole, agent, k) && event::task_name(
                    whole[k],
                ) == n;
            let i = if k < at {
                k
            } else {
                k - 1
            };
            assert(shifted(at, i) == k);
            assert(is_live_at(rest, agent, i));
        }
        if is_live_name(rest, agent, n) {
            let i = choose|i: int|
                0 <= i < rest.len() && #[trigger] is_live_at(rest, agent, i) && event::task_name(
                    rest[i],
                ) == n;
            assert(is_live_at(whole, agent, shifted(at, i)));
        }
    }
    event::lemma_latest_without(before, e, after, |x: event::EventView| is_exact(x, agent, task));
    event::lemma_latest_without(
        before,
        e,
        after,
        |x: event::EventView| is_same_name(x, agent, query),
    );
    event::lemma_latest_without(before, e, after, |x: event::EventView| is_fuzzy(x, agent, query));
    assert(has_one_live_task(whole, agent) <==> has_one_live_task(rest, agent)) by {
        if exists|name: Seq<char>| is_live_name(rest, agent, name) {
            let name = choose|name: Seq<char>| is_live_name(rest, agent, name);
            assert(is_live_name(whole, agent, name));
        }
        if has_one_live_task(whole, agent) {
            assert forall|one: Seq<char>, other: Seq<char>|
                is_live_name(rest, agent, one) && is_live_name(
                    rest,
                    agent,
                    other,
                ) implies one == other by {
                assert(is_live_name(whole, agent, one) && is_live_name(whole, agent, other));
            }
        }
    }
    let k = lemma_fallback(whole, agent);
    let i = lemma_fallback(rest, agent);
    if has_one_live_task(rest, agent) {
        let up = if k < at {
            k
        } else {
            k - 1
        };
        assert(shifted(at, up) == k);
        assert(is_live_at(rest, agent, up));
        assert(is_live_at(whole, agent, shifted(at, i)));
        assert(up == i);
    }
}

/// The canonical task of a match leads back to the matched event: described by it, the task is
/// matched exactly, to the same event.
pub proof fn law_canonical_task(events: Seq<event::EventView>, agent: Seq<char>, task: Seq<char>)
    ensures
        matched_event(match_view(events, agent, task)) matches Some(e) ==> match_view(
            events,
            agent,
            e.task->0,
        ) == MatchView::Exact(e),
{
    law_matched_event(events, agent, task);
    let m = match_view(events, agent, task);
    if let Some(e) = matched_event(m) {
        let query = text::normalized(task);
        let name = event::task_name(e);
        let again = |x: event::EventView| is_exact(x, agent, e.task->0);
        let exact = |x: event::EventView| is_exact(x, agent, task);
        let same = |x: event::EventView| is_same_name(x, agent, query);
        let fuzzy = |x: event::EventView| is_fuzzy(x, agent, query);
        let i = if event::latest(events, exact) is Some {
            event::lemma_latest_is_last(events, exact)
        } else if event::latest(events, same) is Some {
            event::lemma_latest_is_last(events, same)
        } else if event::latest(events, fuzzy) is Some {
            event::lemma_latest_is_last(events, fuzzy)
        } else {
            lemma_fallback(events, agent)
        };
        assert(events[i] == e && again(e));
        assert forall|j: int| i < j < events.len() implies !again(#[trigger] events[j]) by {
            if again(events[j]) {
                assert(event::task_name(events[j]) == name);
                if event::latest(events, exact) is Some {
                    assert(!exact(events[j]));
                } else if event::latest(events, same) is Some {
                    assert(!same(events[j]));
                } else if event::latest(events, fuzzy) is Some {
                    assert(!fuzzy(events[j]));
                } else {
                    assert(!is_live_at(events, agent, j));
                    if events[j].event_type.terminates() {
                        assert(ends_task(events[j], agent, name));
                    } else {
                        let k = choose|k: int|
                            j < k < events.len() && ends_task(#[trigger] events[k], agent, name);
                        assert(ends_task(events[k], agent, name));
                    }
                }
            }
        }
        event::lemma_latest_at(events, again, i);
    }
}

/// A task is new where no event of the agent names a task and sets a state.
pub proof fn law_new_task(events: Seq<event::EventView>, agent: Seq<char>, task: Seq<char>)
    requires
        forall|i: int| 0 <= i < events.len() ==> !is_candidate(#[trigger] events[i], agent),
    ensures
        match_view(events, agent, task) == MatchView::Unmatched,
        previous_state(events, agent, task) is None,
{
    law_matched_event(events, agent, task);
}

/// Where the description fits no event of the agent, the match is that of its only active task, if
/// it has exactly one; where it has none or several, nothing is guessed.
pub proof fn law_no_guess(events: Seq<event::EventView>, agent: Seq<char>, task: Seq<char>)
    requires
        forall|i: int|
            0 <= i < events.len() ==> !is_fuzzy(
                #[trigger] events[i],
                agent,
                text::normalized(task),
            ),
    ensures
        match_view(events, agent, task) == fallback_view(events, agent),
        previous_state(events, agent, task) is Some <==> has_one_live_task(events, agent),
{
    let query = text::normalized(task);
    law_exact_name(events, agent, task);
    assert forall|i: int| 0 <= i < events.len() implies !is_same_name(
        #[trigger] events[i],
        agent,
        query,
    ) by {
        if is_same_name(events[i], agent, query) {
            lemma_same_name_is_fuzzy(events[i], agent, query);
        }
    }
    let j = event::lemma_latest_is_last(events, |e: event::EventView| is_fuzzy(e, agent, query));
}

} // verus!
