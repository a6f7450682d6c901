//! Kinds of events, the steps of the state machine, and the clock.
use super::places;
use crate::event::{ClockReading, EventType, StateMachine, Timestamp, Transition};
use crate::{event, text};
use vstd::prelude::*;
use vstd::utf8::*;

verus! {

/// An event of this type puts its agent into a state.
pub open spec fn changes_state(et: EventType) -> bool {
    !(et is Note || et is SudoGranted || et is SudoDenied || et is HitlResolved)
}

/// An event of this type ends its task.
pub open spec fn ends(et: EventType) -> bool {
    et is Completed || et is Failed
}

/// The state that an event of this type puts its agent into.
pub open spec fn state_after(et: EventType) -> Seq<char> {
    if et is Submitted {
        "submitted"@
    } else if et is Working {
        "working"@
    } else if et is Committed {
        "committed"@
    } else if et is Completed {
        "completed"@
    } else if et is Failed {
        "failed"@
    } else if et is Blocked {
        "blocked"@
    } else if et is Confused {
        "confused"@
    } else if et is Sudo {
        "sudo_pending"@
    } else if et is Hitl {
        "hitl_pending"@
    } else {
        "idle"@
    }
}

/// The name of an event type as an action.
pub open spec fn action_name(et: EventType) -> Seq<char> {
    if et is Submitted {
        "submitted"@
    } else if et is Working {
        "working"@
    } else if et is Committed {
        "committed"@
    } else if et is Completed {
        "completed"@
    } else if et is Failed {
        "failed"@
    } else if et is Blocked {
        "blocked"@
    } else if et is Confused {
        "confused"@
    } else if et is Sudo {
        "sudo"@
    } else if et is SudoGranted {
        "sudo_granted"@
    } else if et is SudoDenied {
        "sudo_denied"@
    } else if et is Hitl {
        "hitl"@
    } else if et is HitlResolved {
        "hitl_resolved"@
    } else {
        "note"@
    }
}

/// Every event type is of exactly one kind: a note, a response, the end of a task, or an active
/// state.
pub proof fn law_kinds(et: &EventType, response: bool, terminal: bool, active: bool)
    requires
        call_ensures(EventType::is_response, (et,), response),
        call_ensures(EventType::is_terminal, (et,), terminal),
        call_ensures(EventType::is_active, (et,), active),
    ensures
        terminal <==> ends(*et),
        active <==> changes_state(*et) && !ends(*et),
        response <==> !changes_state(*et) && *et !is Note,
{
}

/// The state of an event type, and its label, which is its name as an action in capitals.
pub proof fn law_type_names(et: &EventType, state: &'static str, label: &'static str)
    requires
        call_ensures(EventType::state_name, (et,), state),
        call_ensures(EventType::label, (et,), label),
    ensures
        state@ == state_after(*et),
        text::lowercase(label@) == action_name(*et),
        forall|i: int|
            0 <= i < label@.len() ==> 'A' <= #[trigger] label@[i] <= 'Z' || label@[i] == '_',
{
    lemma_label(*et);
}

proof fn lemma_word(label: Seq<char>, word: Seq<char>)
    requires
        is_ascii_chars(label),
        label.len() == word.len(),
        forall|i: int| 0 <= i < label.len() ==> text::ascii_lower(#[trigger] label[i]) == word[i],
    ensures
        text::lowercase(label) == word,
{
    assert(text::lowercase(label) =~= word);
}

pub(crate) proof fn lemma_label(et: EventType)
    ensures
        text::lowercase(et.label_text()) == action_name(et),
        forall|i: int|
            0 <= i < et.label_text().len() ==> 'A' <= #[trigger] et.label_text()[i] <= 'Z'
                || et.label_text()[i] == '_',
{
    match et {
        EventType::Submitted => {
            reveal_strlit("SUBMITTED");
            reveal_strlit("submitted");
            lemma_word("SUBMITTED"@, "submitted"@);
        },
        EventType::Working => {
            reveal_strlit("WORKING");
            reveal_strlit("working");
            lemma_word("WORKING"@, "working"@);
        },
        EventType::Committed => {
            reveal_strlit("COMMITTED");
            reveal_strlit("committed");
            lemma_word("COMMITTED"@, "committed"@);
        },
        EventType::Completed => {
            reveal_strlit("COMPLETED");
            reveal_strlit("completed");
            lemma_word("COMPLETED"@, "completed"@);
        },
        EventType::Failed => {
            reveal_strlit("FAILED");
            reveal_strlit("failed");
            lemma_word("FAILED"@, "failed"@);
        },
        EventType::Blocked => {
            reveal_strlit("BLOCKED");
            reveal_strlit("blocked");
            lemma_word("BLOCKED"@, "blocked"@);
        },
        EventType::Confused => {
            reveal_strlit("CONFUSED");
            reveal_strlit("confused");
            lemma_word("CONFUSED"@, "confused"@);
        },
        EventType::Sudo => {
            reveal_strlit("SUDO");
            reveal_strlit("sudo");
            lemma_word("SUDO"@, "sudo"@);
        },
        EventType::SudoGranted => {
            reveal_strlit("SUDO_GRANTED");
            reveal_strlit("sudo_granted");
            lemma_word("SUDO_GRANTED"@, "sudo_granted"@);
        },
        EventType::SudoDenied => {
            reveal_strlit("SUDO_DENIED");
            reveal_strlit("sudo_denied");
            lemma_word("SUDO_DENIED"@, "sudo_denied"@);
        },
        EventType::Hitl => {
            reveal_strlit("HITL");
            reveal_strlit("hitl");
            lemma_word("HITL"@, "hitl"@);
        },
        EventType::HitlResolved => {
            reveal_strlit("HITL_RESOLVED");
            reveal_strlit("hitl_resolved");
            lemma_word("HITL_RESOLVED"@, "hitl_resolved"@);
        },
        EventType::Note => {
            reveal_strlit("NOTE");
            reveal_strlit("note");
            lemma_word("NOTE"@, "note"@);
        },
    }
}

/// What is suggested after `prev` are the ends of the transitions that begin with `prev`, in their
/// order.
pub proof fn law_suggestions(machine: &StateMachine, prev: Option<&EventType>, r: Vec<EventType>) -> (
found: Seq<int>)
    requires
        call_ensures(StateMachine::suggest, (machine, prev), r),
    ensures
        r@.len() == found.len(),
        forall|i: int|
            0 <= i < found.len() ==> #[trigger] r@[i] == machine.transitions@[found[i]].to,
        places::are_places(
            found,
            machine.transitions@.len(),
            |k: int|
                match (machine.transitions@[k].from, prev) {
                    (Some(a), Some(b)) => a == *b,
                    (None, None) => true,
                    _ => false,
                },
        ),
{
    let steps = machine.transitions@;
    let from: Option<EventType> = match prev {
        Some(et) => Some(*et),
        None => None,
    };
    let p = |t: Transition| t.from == from;
    let found = places::lemma_filter_places(steps, p);
    lemma_same_places(
        found,
        steps.len(),
        |k: int| p(steps[k]),
        |k: int|
            match (steps[k].from, prev) {
                (Some(a), Some(b)) => a == *b,
                (None, None) => true,
                _ => false,
            },
    );
    found
}

pub(crate) proof fn lemma_same_places(
    found: Seq<int>,
    n: nat,
    p: spec_fn(int) -> bool,
    q: spec_fn(int) -> bool,
)
    requires
        places::are_places(found, n, p),
        forall|k: int| 0 <= k < n ==> #[trigger] p(k) == q(k),
    ensures
        places::are_places(found, n, q),
{
    assert forall|k: int| 0 <= k < n && #[trigger] q(k) implies found.contains(k) by {
        assert(p(k));
    }
    assert forall|i: int| 0 <= i < found.len() implies 0 <= #[trigger] found[i] < n && q(
        found[i],
    ) by {
        assert(p(found[i]));
    }
}

/// The steps of this project. A task begins by being submitted or worked on; every active state but
/// a pending request allows to fail, and all of them but work itself to work; work and a commit
/// allow to complete; only work leads to commits, blockers, questions and requests; a request is
/// followed by its responses; a task that has ended is followed by nothing. No step occurs twice.
pub proof fn law_project_machine(machine: StateMachine, from: Option<EventType>, to: EventType)
    requires
        call_ensures(event::state_machine, (), machine),
    ensures
        machine.transitions@.contains(Transition { from, to }) <==> match from {
            None => to is Submitted || to is Working,
            Some(EventType::Submitted) => to is Working || to is Failed,
            Some(EventType::Working) => changes_state(to) && !(to is Submitted || to is Working),
            Some(EventType::Committed) => to is Working || to is Completed || to is Failed,
            Some(EventType::Blocked) => to is Working || to is Failed,
            Some(EventType::Confused) => to is Working || to is Failed,
            Some(EventType::Sudo) => to is SudoGranted || to is SudoDenied,
            Some(EventType::Hitl) => to is HitlResolved,
            _ => false,
        },
        machine.transitions@.no_duplicates(),
{
    let steps = machine.transitions@;
    let t = Transition { from, to };
    assert(steps.len() == 21);
    assert(steps.contains(t) <==> exists|i: int| 0 <= i < 21 && steps[i] == t);
    assert(steps[0] == t || steps[1] == t || steps[2] == t || steps[3] == t || steps[4] == t
        || steps[5] == t || steps[6] == t || steps[7] == t || steps[8] == t || steps[9] == t
        || steps[10] == t || steps[11] == t || steps[12] == t || steps[13] == t || steps[14] == t
        || steps[15] == t || steps[16] == t || steps[17] == t || steps[18] == t || steps[19] == t
        || steps[20] == t <==> steps.contains(t));
}

/// A clock after the epoch is taken as it stands. Before the epoch the seconds count downwards, and
/// the fraction goes on upwards. Seconds beyond 64 bits are cut off.
pub proof fn law_clock(reading: ClockReading, r: Timestamp)
    requires
        call_ensures(Timestamp::from_clock, (reading,), r),
        reading.nanos < 1_000_000_000,
    ensures
        r.nanos < 1_000_000_000,
        reading.secs <= i64::MAX && !reading.before_epoch ==> r.secs == reading.secs && r.nanos
            == reading.nanos,
        reading.secs <= i64::MAX && reading.before_epoch && reading.nanos == 0 ==> r.secs
            == -reading.secs && r.nanos == 0,
        reading.secs <= i64::MAX && reading.before_epoch && reading.nanos > 0 ==> r.secs
            == -reading.secs - 1 && r.nanos == 1_000_000_000 - reading.nanos,
        reading.secs > i64::MAX ==> r.nanos == 0 && r.secs == (if reading.before_epoch {
            i64::MIN
        } else {
            i64::MAX
        }),
{
}

/// Of two points in time the earlier has fewer seconds, or as many and fewer nanoseconds.
pub proof fn law_time_order(a: &Timestamp, b: &Timestamp, before: bool)
    requires
        call_ensures(Timestamp::is_before, (a, b), before),
    ensures
        before <==> a.secs < b.secs || (a.secs == b.secs && a.nanos < b.nanos),
{
}

} // verus!
