//! What a filter selects.
use super::places;
use crate::event::RibbonEvent;
use crate::filter::EventFilter;
use crate::text;
use vstd::prelude::*;
use vstd::std_specs::iter::*;

verus! {

/// The filter asks for nothing but what it may ask of the agent.
pub open spec fn asks_agent_only(f: EventFilter) -> bool {
    f.event_type is None && f.since is None && f.task_contains is None
}

/// The filter asks for nothing but what it may ask of the type.
pub open spec fn asks_type_only(f: EventFilter) -> bool {
    f.agent is None && f.since is None && f.task_contains is None
}

/// The filter asks for nothing but what it may ask of the time.
pub open spec fn asks_time_only(f: EventFilter) -> bool {
    f.agent is None && f.event_type is None && f.task_contains is None
}

/// The filter asks for nothing but what it may ask of the task.
pub open spec fn asks_task_only(f: EventFilter) -> bool {
    f.agent is None && f.event_type is None && f.since is None
}

/// The text `part` stands in `whole` from some position on.
pub open spec fn holds(whole: Seq<char>, part: Seq<char>) -> bool {
    exists|i: int|
        0 <= i <= whole.len() - part.len() && #[trigger] whole.subrange(i, i + part.len()) == part
}

pub(crate) proof fn lemma_holds(whole: Seq<char>, part: Seq<char>)
    ensures
        holds(whole, part) == text::is_substring(part, whole),
{
    if text::is_substring(part, whole) {
        let i = choose|i: int| text::occurs_at(part, whole, i);
        assert(whole.subrange(i, i + part.len()) == part);
    }
    if holds(whole, part) {
        let i = choose|i: int|
            0 <= i <= whole.len() - part.len() && #[trigger] whole.subrange(i, i + part.len())
                == part;
        assert(text::occurs_at(part, whole, i));
    }
}

/// A filter that asks for an agent matches no event of another agent, and where it asks for nothing
/// else, it matches every event of that agent.
pub proof fn law_agent_condition(f: &EventFilter, e: &RibbonEvent, r: bool)
    requires
        call_ensures(EventFilter::matches, (f, e), r),
        f.agent is Some,
    ensures
        r ==> e.agent@ == f.agent->0@,
        asks_agent_only(*f) ==> (r <==> e.agent@ == f.agent->0@),
{
}

/// A filter that asks for a type matches no event of another type, and where it asks for nothing
/// else, it matches every event of that type.
pub proof fn law_type_condition(f: &EventFilter, e: &RibbonEvent, r: bool)
    requires
        call_ensures(EventFilter::matches, (f, e), r),
        f.event_type is Some,
    ensures
        r ==> e.event_type == f.event_type->0,
        asks_type_only(*f) ==> (r <==> e.event_type == f.event_type->0),
{
}

/// A filter that asks for a time matches no event before it, and where it asks for nothing else, it
/// matches every event at that time and after it.
pub proof fn law_time_condition(f: &EventFilter, e: &RibbonEvent, r: bool)
    requires
        call_ensures(EventFilter::matches, (f, e), r),
        f.since is Some,
    ensures
        ({
            let since = f.since->0;
            let in_time = e.ts.secs > since.secs || (e.ts.secs == since.secs && e.ts.nanos
                >= since.nanos);
            &&& r ==> in_time
            &&& asks_time_only(*f) ==> (r <==> in_time)
        }),
{
}

/// A filter that asks for a task matches no event without a task and none in whose task the text
/// does not occur, both in lower case; where it asks for nothing else, it matches every event in
/// whose task the text occurs.
pub proof fn law_task_condition(f: &EventFilter, e: &RibbonEvent, r: bool)
    requires
        call_ensures(EventFilter::matches, (f, e), r),
        f.task_contains is Some,
    ensures
        ({
            let occurs = e.task is Some && holds(
                text::lowercase(e.task->0@),
                text::lowercase(f.task_contains->0@),
            );
            &&& r ==> occurs
            &&& asks_task_only(*f) ==> (r <==> occurs)
        }),
{
    lemma_holds(text::lowercase(e.task->0@), text::lowercase(f.task_contains->0@));
}

/// The conditions of a filter hold together: it matches an event if and only if each of the filters
/// that ask for one of its conditions does. Limits play no part.
pub proof fn law_conditions_hold_together(
    f: &EventFilter,
    by_agent: &EventFilter,
    by_type: &EventFilter,
    by_time: &EventFilter,
    by_task: &EventFilter,
    e: &RibbonEvent,
    r: bool,
    agent_fits: bool,
    type_fits: bool,
    time_fits: bool,
    task_fits: bool,
)
    requires
        asks_agent_only(*by_agent) && by_agent.agent == f.agent,
        asks_type_only(*by_type) && by_type.event_type == f.event_type,
        asks_time_only(*by_time) && by_time.since == f.since,
        asks_task_only(*by_task) && by_task.task_contains == f.task_contains,
        call_ensures(EventFilter::matches, (f, e), r),
        call_ensures(EventFilter::matches, (by_agent, e), agent_fits),
        call_ensures(EventFilter::matches, (by_type, e), type_fits),
        call_ensures(EventFilter::matches, (by_time, e), time_fits),
        call_ensures(EventFilter::matches, (by_task, e), task_fits),
    ensures
        r <==> agent_fits && type_fits && time_fits && task_fits,
{
}

/// A filter that asks for nothing matches every event.
pub proof fn law_no_condition(f: &EventFilter, e: &RibbonEvent, r: bool)
    requires
        call_ensures(EventFilter::matches, (f, e), r),
        asks_agent_only(*f),
        f.agent is None,
    ensures
        r,
{
}

/// The event has the agent, the type, the time and the task that the filter asks for.
pub open spec fn fits(f: EventFilter, e: &RibbonEvent) -> bool {
    &&& f.agent matches Some(a) ==> e.agent@ == a@
    &&& f.event_type matches Some(et) ==> e.event_type == et
    &&& f.since matches Some(t) ==> e.ts.secs > t.secs || (e.ts.secs == t.secs && e.ts.nanos
        >= t.nanos)
    &&& f.task_contains matches Some(part) ==> e.task is Some && holds(
        text::lowercase(e.task->0@),
        text::lowercase(part@),
    )
}

proof fn lemma_fits(f: EventFilter, e: &RibbonEvent)
    ensures
        fits(f, e) == f@.admits(e@),
{
    if f.task_contains is Some && e.task is Some {
        lemma_holds(text::lowercase(e.task->0@), text::lowercase(f.task_contains->0@));
    }
}

/// Without a limit, the selected events are those at the places where an event has all that the
/// filter asks for, each of them once and in their order.
pub proof fn law_selected_places<'a, I: Iterator<Item = &'a RibbonEvent>>(
    f: &EventFilter,
    events: I,
    r: Vec<&'a RibbonEvent>,
)
    requires
        call_ensures(EventFilter::apply::<I>, (f, events), r),
        f.limit is None,
    ensures
        exists|found: Seq<int>|
            {
                &&& #[trigger] places::stand_at(r@, events.remaining(), found)
                &&& places::are_places(
                    found,
                    events.remaining().len(),
                    |k: int| fits(*f, events.remaining()[k]),
                )
            },
{
    let all = events.remaining();
    let p = |e: &RibbonEvent| f@.admits(e@);
    let found = places::lemma_filter_places(all, p);
    let q = |k: int| p(all[k]);
    let wanted = |k: int| fits(*f, all[k]);
    assert forall|k: int| #[trigger] wanted(k) == q(k) by {
        lemma_fits(*f, all[k]);
    }
    assert forall|k: int| 0 <= k < all.len() && #[trigger] wanted(k) implies found.contains(k) by {
        assert(q(k));
    }
    assert forall|i: int| 0 <= i < found.len() implies 0 <= #[trigger] found[i] < all.len()
        && wanted(found[i]) by {
        assert(wanted(found[i]) == q(found[i]));
    }
    assert(places::stand_at(r@, all, found));
    assert(places::are_places(found, all.len(), wanted));
}

/// A limit keeps the last events: of two filters that differ in their limits only, the one with a
/// limit of `n` selects the last `n` events that the one without selects, or all where they are no
/// more than `n`.
pub proof fn law_last_ones<'a, I: Iterator<Item = &'a RibbonEvent>>(
    limited: &EventFilter,
    free: &EventFilter,
    events: I,
    some: Vec<&'a RibbonEvent>,
    all: Vec<&'a RibbonEvent>,
)
    requires
        limited.agent == free.agent,
        limited.event_type == free.event_type,
        limited.since == free.since,
        limited.task_contains == free.task_contains,
        limited.limit is Some,
        free.limit is None,
        call_ensures(EventFilter::apply::<I>, (limited, events), some),
        call_ensures(EventFilter::apply::<I>, (free, events), all),
    ensures
        some@.len() <= limited.limit->0,
        some@.len() == limited.limit->0 || some@.len() == all@.len(),
        some@.len() <= all@.len(),
        forall|i: int|
            0 <= i < some@.len() ==> #[trigger] some@[i] == all@[i + all@.len() - some@.len()],
{
    assert((|e: &RibbonEvent| limited@.admits(e@)) =~= (|e: &RibbonEvent| free@.admits(e@)));
}

} // verus!
