//! Selecting events of the log.
use crate::event::{EventType, RibbonEvent, Timestamp};
use crate::{event, text};
use vstd::prelude::*;
use vstd::std_specs::iter::*;

verus! {

/// Query filter for selecting events.
#[derive(Clone, Debug)]
pub struct EventFilter {
    /// Only events from this agent.
    pub agent: Option<String>,
    /// Only events of this type.
    pub event_type: Option<EventType>,
    /// Only events since this timestamp (inclusive).
    pub since: Option<Timestamp>,
    /// Only events whose task contains the given text (case-insensitive).
    pub task_contains: Option<String>,
    /// Limit to the last N events.
    pub limit: Option<usize>,
}

/// What a filter asks for, with its strings as sequences of characters.
pub struct FilterView {
    pub agent: Option<Seq<char>>,
    pub event_type: Option<EventType>,
    pub since: Option<Timestamp>,
    pub task_contains: Option<Seq<char>>,
    pub limit: Option<usize>,
}

impl View for EventFilter {
    type V = FilterView;

    open spec fn view(&self) -> FilterView {
        FilterView {
            agent: text::opt_view(self.agent),
            event_type: self.event_type,
            since: self.since,
            task_contains: text::opt_view(self.task_contains),
            limit: self.limit,
        }
    }
}

impl FilterView {
    /// The filter that asks for nothing.
    pub open spec fn unrestricted() -> FilterView {
        FilterView { agent: None, event_type: None, since: None, task_contains: None, limit: None }
    }

    /// The event has all that the filter asks for.
    pub open spec fn admits(self, e: event::EventView) -> bool {
        &&& self.agent matches Some(agent) ==> e.agent == agent
        &&& self.event_type matches Some(et) ==> e.event_type == et
        &&& self.since matches Some(since) ==> !e.ts.precedes(since)
        &&& self.task_contains matches Some(part) ==> e.task matches Some(task)
            && text::is_substring(text::lowercase(part), text::lowercase(task))
    }

    /// The events that the filter selects: of those that it admits, in their order, the last ones
    /// up to its limit.
    pub open spec fn selects(self, events: Seq<&RibbonEvent>) -> Seq<&RibbonEvent> {
        last_ones(events.filter(|e: &RibbonEvent| self.admits(e@)), self.limit)
    }
}

/// The last `limit` elements of `s`; all of them where there are no more, or no limit.
pub open spec fn last_ones<T>(s: Seq<T>, limit: Option<usize>) -> Seq<T> {
    match limit {
        Some(n) => if n < s.len() {
            s.skip(s.len() - n)
        } else {
            s
        },
        None => s,
    }
}

impl Default for EventFilter {
    /// The filter that asks for nothing.
    fn default() -> (r: EventFilter)
        ensures
            r@ == FilterView::unrestricted(),
    {
        EventFilter { agent: None, event_type: None, since: None, task_contains: None, limit: None }
    }
}

impl EventFilter {
    /// Create a filter that matches all events.
    pub fn all() -> (r: EventFilter)
        ensures
            r@ == FilterView::unrestricted(),
    {
        EventFilter::default()
    }

    /// Filter by agent.
    pub fn agent<T: Into<String>>(self, agent: T) -> (r: EventFilter)
        ensures
            r.agent matches Some(s) && call_ensures(<T as Into<String>>::into, (agent,), s),
            r == (EventFilter { agent: r.agent, ..self }),
    {
        EventFilter { agent: Some(agent.into()), ..self }
    }

    /// Filter by event type.
    pub fn event_type(self, et: EventType) -> (r: EventFilter)
        ensures
            r == (EventFilter { event_type: Some(et), ..self }),
    {
        EventFilter { event_type: Some(et), ..self }
    }

    /// Filter since timestamp.
    pub fn since(self, ts: Timestamp) -> (r: EventFilter)
        ensures
            r == (EventFilter { since: Some(ts), ..self }),
    {
        EventFilter { since: Some(ts), ..self }
    }

    /// Filter by task substring.
    pub fn task_contains<T: Into<String>>(self, task: T) -> (r: EventFilter)
        ensures
            r.task_contains matches Some(s) && call_ensures(<T as Into<String>>::into, (task,), s),
            r == (EventFilter { task_contains: r.task_contains, ..self }),
    {
        EventFilter { task_contains: Some(task.into()), ..self }
    }

    /// Limit results.
    pub fn limit(self, n: usize) -> (r: EventFilter)
        ensures
            r == (EventFilter { limit: Some(n), ..self }),
    {
        EventFilter { limit: Some(n), ..self }
    }

    /// Whether the event has all that the filter asks for.
    pub fn matches(&self, e: &RibbonEvent) -> (r: bool)
        ensures
            r == self@.admits(e@),
    {
        if let Some(agent) = &self.agent {
            if e.agent != *agent {
                return false;
            }
        }
        if let Some(et) = &self.event_type {
            if e.event_type != *et {
                return false;
            }
        }
        if let Some(since) = &self.since {
            if e.ts.is_before(since) {
                return false;
            }
        }
        if let Some(part) = &self.task_contains {
            if let Some(task) = &e.task {
                let lowered = text::to_lowercase(task.as_str());
                let wanted = text::to_lowercase(part.as_str());
                if !text::contains_text(lowered.as_str(), wanted.as_str()) {
                    return false;
                }
            } else {
                return false;
            }
        }
        true
    }

    /// Apply this filter to an iterator of events, one that ends.
    pub fn apply<'a, I: Iterator<Item = &'a RibbonEvent>>(&self, events: I) -> (r: Vec<
        &'a RibbonEvent,
    >)
        requires
            events.obeys_prophetic_iter_laws(),
            events.decrease() is Some,
        ensures
            r@ == self@.selects(events.remaining()),
    {
        let ghost all = events.remaining();
        let ghost admitted = |e: &RibbonEvent| self@.admits(e@);
        let ghost mut n: int = 0;
        let mut rest = events;
        let mut results: Vec<&'a RibbonEvent> = Vec::new();
        assert(all.skip(0) =~= all);
        assert(all.take(0).filter(admitted) =~= Seq::empty()) by {
            reveal(Seq::filter);
        }
        loop
            invariant_except_break
                admitted == (|e: &RibbonEvent| self@.admits(e@)),
                rest.obeys_prophetic_iter_laws(),
                rest.decrease() is Some,
                0 <= n <= all.len(),
                rest.remaining() == all.skip(n),
                results@ == all.take(n).filter(admitted),
            ensures
                results@ == all.filter(admitted),
            decreases rest.decrease()->0,
        {
            match rest.next() {
                Some(e) => {
                    proof {
                        reveal(Seq::filter);
                        assert(all.take(n + 1).drop_last() =~= all.take(n));
                        assert(all.skip(n).drop_first() =~= all.skip(n + 1));
                        n = n + 1;
                    }
                    if self.matches(e) {
                        results.push(e);
                    }
                },
                None => {
                    assert(all.take(n) =~= all);
                    break;
                },
            }
        }
        if let Some(limit) = self.limit {
            let start: usize = results.len().saturating_sub(limit);
            let mut tail: Vec<&'a RibbonEvent> = Vec::new();
            for i in start..results.len()
                invariant
                    start <= results.len(),
                    tail@ == results@.subrange(start as int, i as int),
            {
                tail.push(results[i]);
                assert(results@.subrange(start as int, i + 1) =~= results@.subrange(
                    start as int,
                    i as int,
                ).push(results@[i as int]));
            }
            assert(tail@ =~= last_ones(results@, self.limit));
            results = tail;
        }
        results
    }
}

proof fn lemma_filter_all<T>(s: Seq<T>, p: spec_fn(T) -> bool)
    requires
        forall|i: int| 0 <= i < s.len() ==> p(#[trigger] s[i]),
    ensures
        s.filter(p) == s,
    decreases s.len(),
{
    reveal(Seq::filter);
    if s.len() > 0 {
        let shorter = s.drop_last();
        assert(p(s[s.len() - 1]));
        assert forall|i: int| 0 <= i < shorter.len() implies p(#[trigger] shorter[i]) by {
            assert(shorter[i] == s[i]);
        }
        lemma_filter_all(shorter, p);
        assert(s =~= shorter.push(s.last()));
    } else {
        assert(s.filter(p) =~= s);
    }
}

proof fn lemma_filtered<T>(s: Seq<T>, p: spec_fn(T) -> bool)
    ensures
        s.filter(p).len() <= s.len(),
        forall|i: int|
            0 <= i < s.filter(p).len() ==> p(#[trigger] s.filter(p)[i]) && s.contains(
                s.filter(p)[i],
            ),
    decreases s.len(),
{
    reveal(Seq::filter);
    if s.len() > 0 {
        let shorter = s.drop_last();
        lemma_filtered(shorter, p);
        assert forall|i: int| 0 <= i < s.filter(p).len() implies p(#[trigger] s.filter(p)[i])
            && s.contains(s.filter(p)[i]) by {
            if i < shorter.filter(p).len() {
                assert(s.filter(p)[i] == shorter.filter(p)[i]);
                let k = choose|k: int| 0 <= k < shorter.len() && shorter[k] == shorter.filter(p)[i];
                assert(s[k] == s.filter(p)[i]);
            } else {
                assert(s[s.len() - 1] == s.filter(p)[i]);
            }
        }
    }
}

proof fn lemma_filter_twice<T>(
    s: Seq<T>,
    p: spec_fn(T) -> bool,
    q: spec_fn(T) -> bool,
    both: spec_fn(T) -> bool,
)
    requires
        forall|x: T| #[trigger] both(x) == (p(x) && q(x)),
    ensures
        s.filter(both) == s.filter(p).filter(q),
    decreases s.len(),
{
    reveal(Seq::filter);
    if s.len() > 0 {
        let shorter = s.drop_last();
        lemma_filter_twice(shorter, p, q, both);
        assert(both(s.last()) == (p(s.last()) && q(s.last())));
        if p(s.last()) {
            assert(shorter.filter(p).push(s.last()).drop_last() =~= shorter.filter(p));
        }
    } else {
        assert(s.filter(both) =~= s.filter(p).filter(q));
    }
}

/// The filter that asks for nothing selects every event.
pub proof fn law_all_events(events: Seq<&RibbonEvent>)
    ensures
        FilterView::unrestricted().selects(events) == events,
{
    lemma_filter_all(events, |e: &RibbonEvent| FilterView::unrestricted().admits(e@));
}

/// Every selected event is one of the events and has all that the filter asks for.
pub proof fn law_selected_events(f: FilterView, events: Seq<&RibbonEvent>)
    ensures
        forall|i: int|
            0 <= i < f.selects(events).len() ==> f.admits((#[trigger] f.selects(events)[i])@)
                && events.contains(f.selects(events)[i]),
{
    let p = |e: &RibbonEvent| f.admits(e@);
    let admitted = events.filter(p);
    lemma_filtered(events, p);
    assert forall|i: int| 0 <= i < f.selects(events).len() implies f.admits(
        (#[trigger] f.selects(events)[i])@,
    ) && events.contains(f.selects(events)[i]) by {
        let k = i + (admitted.len() - f.selects(events).len());
        assert(f.selects(events)[i] == admitted[k]);
        assert(p(admitted[k]));
    }
}

/// A limit cuts events from the front only, and no more than it must: what is selected without it
/// ends with what is selected under it, and the number of selected events is the limit, or that of
/// all admitted events where they are fewer.
pub proof fn law_limit(f: FilterView, events: Seq<&RibbonEvent>, n: usize)
    ensures
        ({
            let free = (FilterView { limit: None, ..f }).selects(events);
            let limited = (FilterView { limit: Some(n), ..f }).selects(events);
            &&& limited.len() == if n < free.len() {
                n as nat
            } else {
                free.len()
            }
            &&& limited == free.skip(free.len() - limited.len())
        }),
{
    let free_filter = FilterView { limit: None, ..f };
    let limited_filter = FilterView { limit: Some(n), ..f };
    assert((|e: &RibbonEvent| free_filter.admits(e@)) =~= (|e: &RibbonEvent|
        limited_filter.admits(e@)));
    let free = free_filter.selects(events);
    assert(free.skip(0) =~= free);
}

/// Selecting again from what was selected changes nothing.
pub proof fn law_select_twice(f: FilterView, events: Seq<&RibbonEvent>)
    ensures
        f.selects(f.selects(events)) == f.selects(events),
{
    let p = |e: &RibbonEvent| f.admits(e@);
    let once = f.selects(events);
    law_selected_events(f, events);
    assert forall|i: int| 0 <= i < once.len() implies p(#[trigger] once[i]) by {
        assert(f.admits(once[i]@));
    }
    lemma_filter_all(once, p);
}

/// The conditions of a filter add up: without limits, a filter that asks for what two others ask
/// for selects what the second one selects from the selection of the first.
pub proof fn law_conditions_add_up(
    first: FilterView,
    second: FilterView,
    both: FilterView,
    events: Seq<&RibbonEvent>,
)
    requires
        first.limit is None,
        second.limit is None,
        both.limit is None,
        forall|e: event::EventView| #[trigger]
            both.admits(e) == (first.admits(e) && second.admits(e)),
    ensures
        both.selects(events) == second.selects(first.selects(events)),
{
    lemma_filter_twice(
        events,
        |e: &RibbonEvent| first.admits(e@),
        |e: &RibbonEvent| second.admits(e@),
        |e: &RibbonEvent| both.admits(e@),
    );
}

/// `since` includes its own point in time: it admits the events at that time and after it.
pub proof fn law_since_is_inclusive(since: Timestamp, e: event::EventView)
    ensures
        (FilterView { since: Some(since), ..FilterView::unrestricted() }).admits(e) <==> (e.ts
            == since || since.precedes(e.ts)),
{
}

/// The case of the letters of `task_contains` makes no difference: texts with the same lower case
/// select the same events.
pub proof fn law_task_in_any_case(
    f: FilterView,
    part: Seq<char>,
    other: Seq<char>,
    events: Seq<&RibbonEvent>,
)
    requires
        text::lowercase(part) == text::lowercase(other),
    ensures
        (FilterView { task_contains: Some(part), ..f }).selects(events) == (FilterView {
            task_contains: Some(other),
            ..f
        }).selects(events),
{
    let a = FilterView { task_contains: Some(part), ..f };
    let b = FilterView { task_contains: Some(other), ..f };
    assert((|e: &RibbonEvent| a.admits(e@)) =~= (|e: &RibbonEvent| b.admits(e@)));
}

/// Without a limit, what is selected from two logs in a row is what is selected from the first and
/// then what is selected from the second.
pub proof fn law_logs_in_a_row(f: FilterView, first: Seq<&RibbonEvent>, second: Seq<&RibbonEvent>)
    requires
        f.limit is None,
    ensures
        f.selects(first + second) == f.selects(first) + f.selects(second),
{
    Seq::filter_distributes_over_add(first, second, |e: &RibbonEvent| f.admits(e@));
}

} // verus!
