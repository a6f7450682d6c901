//! Events of the ribbon log and the state machine that they drive.
use crate::text;
use vstd::prelude::*;

verus! {

/// What an event reports about the work of an agent.
#[derive(Clone, Copy, Debug, PartialEq, Eq, Structural)]
pub enum EventType {
    /// A task was handed to the agent.
    Submitted,
    /// The agent works on the task.
    Working,
    /// The agent committed a result of the task.
    Committed,
    /// The task is done.
    Completed,
    /// The task was given up.
    Failed,
    /// The task waits for something else.
    Blocked,
    /// The agent has a question about the task.
    Confused,
    /// The agent asks for elevated rights.
    Sudo,
    /// Elevated rights were granted.
    SudoGranted,
    /// Elevated rights were denied.
    SudoDenied,
    /// The agent asks for a human in the loop.
    Hitl,
    /// The human has answered.
    HitlResolved,
    /// An observation without effect on the state.
    Note,
}

impl EventType {
    /// The event answers a request of the agent.
    pub open spec fn responds(self) -> bool {
        self is SudoGranted || self is SudoDenied || self is HitlResolved
    }

    /// The event ends its task.
    pub open spec fn terminates(self) -> bool {
        self is Completed || self is Failed
    }

    /// The event puts its agent into a state: it is neither a note nor a response.
    pub open spec fn sets_state(self) -> bool {
        self !is Note && !self.responds()
    }

    /// The event puts its agent into a state in which its task goes on.
    pub open spec fn keeps_active(self) -> bool {
        self.sets_state() && !self.terminates()
    }

    /// The state that the event puts its agent into.
    pub open spec fn state_text(self) -> Seq<char> {
        match self {
            EventType::Submitted => "submitted"@,
            EventType::Working => "working"@,
            EventType::Committed => "committed"@,
            EventType::Completed => "completed"@,
            EventType::Failed => "failed"@,
            EventType::Blocked => "blocked"@,
            EventType::Confused => "confused"@,
            EventType::Sudo => "sudo_pending"@,
            EventType::Hitl => "hitl_pending"@,
            EventType::SudoGranted | EventType::SudoDenied | EventType::HitlResolved
            | EventType::Note => "idle"@,
        }
    }

    /// The name of the event type, in capitals.
    pub open spec fn label_text(self) -> Seq<char> {
        match self {
            EventType::Submitted => "SUBMITTED"@,
            EventType::Working => "WORKING"@,
            EventType::Committed => "COMMITTED"@,
            EventType::Completed => "COMPLETED"@,
            EventType::Failed => "FAILED"@,
            EventType::Blocked => "BLOCKED"@,
            EventType::Confused => "CONFUSED"@,
            EventType::Sudo => "SUDO"@,
            EventType::SudoGranted => "SUDO_GRANTED"@,
            EventType::SudoDenied => "SUDO_DENIED"@,
            EventType::Hitl => "HITL"@,
            EventType::HitlResolved => "HITL_RESOLVED"@,
            EventType::Note => "NOTE"@,
        }
    }

    /// Whether the event answers a request of the agent.
    pub fn is_response(&self) -> (r: bool)
        ensures
            r == self.responds(),
    {
        match self {
            EventType::SudoGranted | EventType::SudoDenied | EventType::HitlResolved => true,
            _ => false,
        }
    }

    /// Whether the event ends its task.
    pub fn is_terminal(&self) -> (r: bool)
        ensures
            r == self.terminates(),
    {
        match self {
            EventType::Completed | EventType::Failed => true,
            _ => false,
        }
    }

    /// Whether the event puts its agent into a state in which its task goes on.
    pub fn is_active(&self) -> (r: bool)
        ensures
            r == self.keeps_active(),
    {
        match self {
            EventType::Submitted | EventType::Working | EventType::Committed | EventType::Blocked
            | EventType::Confused | EventType::Sudo | EventType::Hitl => true,
            _ => false,
        }
    }

    /// The name of the state that the event puts its agent into; `idle` for the events that put
    /// it into none.
    pub fn state_name(&self) -> (r: &'static str)
        ensures
            r@ == self.state_text(),
    {
        match self {
            EventType::Submitted => "submitted",
            EventType::Working => "working",
            EventType::Committed => "committed",
            EventType::Completed => "completed",
            EventType::Failed => "failed",
            EventType::Blocked => "blocked",
            EventType::Confused => "confused",
            EventType::Sudo => "sudo_pending",
            EventType::Hitl => "hitl_pending",
            EventType::SudoGranted | EventType::SudoDenied | EventType::HitlResolved
            | EventType::Note => "idle",
        }
    }

    /// The name of the event type, in capitals.
    pub fn label(&self) -> (r: &'static str)
        ensures
            r@ == self.label_text(),
    {
        match self {
            EventType::Submitted => "SUBMITTED",
            EventType::Working => "WORKING",
            EventType::Committed => "COMMITTED",
            EventType::Completed => "COMPLETED",
            EventType::Failed => "FAILED",
            EventType::Blocked => "BLOCKED",
            EventType::Confused => "CONFUSED",
            EventType::Sudo => "SUDO",
            EventType::SudoGranted => "SUDO_GRANTED",
            EventType::SudoDenied => "SUDO_DENIED",
            EventType::Hitl => "HITL",
            EventType::HitlResolved => "HITL_RESOLVED",
            EventType::Note => "NOTE",
        }
    }
}

/// A point in time: seconds since the Unix epoch, and nanoseconds since the second began. In a
/// leap second the nanoseconds go on beyond the full second.
#[derive(Clone, Copy, Debug, PartialEq, Eq, Structural)]
pub struct Timestamp {
    pub secs: i64,
    pub nanos: u32,
}

impl Timestamp {
    /// `self` lies strictly before `other`.
    pub open spec fn precedes(self, other: Timestamp) -> bool {
        self.secs < other.secs || (self.secs == other.secs && self.nanos < other.nanos)
    }

    /// Whether this point in time lies strictly before the other.
    pub fn is_before(&self, other: &Timestamp) -> (r: bool)
        ensures
            r == self.precedes(*other),
    {
        self.secs < other.secs || (self.secs == other.secs && self.nanos < other.nanos)
    }

    /// The point in time in nanoseconds since the Unix epoch, negative before it.
    pub open spec fn epoch_nanos(self) -> int {
        self.secs * NANOS_PER_SEC + self.nanos
    }

    /// The point in time that the clock shows. One that is too far from the epoch for 64 bits of
    /// seconds is taken as the nearest whole second that is not.
    pub fn from_clock(reading: ClockReading) -> (r: Timestamp)
        requires
            reading.nanos < NANOS_PER_SEC,
        ensures
            r.nanos < NANOS_PER_SEC,
            r.epoch_nanos() == (if reading.epoch_nanos() >= (i64::MAX + 1) * NANOS_PER_SEC {
                i64::MAX * NANOS_PER_SEC
            } else if reading.epoch_nanos() < i64::MIN * NANOS_PER_SEC {
                i64::MIN * NANOS_PER_SEC
            } else {
                reading.epoch_nanos()
            }),
    {
        let max: u64 = 0x7fff_ffff_ffff_ffff;
        if !reading.before_epoch {
            if reading.secs <= max {
                Timestamp { secs: reading.secs as i64, nanos: reading.nanos }
            } else {
                Timestamp { secs: i64::MAX, nanos: 0 }
            }
        } else if reading.secs <= max {
            let secs: i64 = -(reading.secs as i64);
            if reading.nanos == 0 {
                Timestamp { secs, nanos: 0 }
            } else {
                Timestamp { secs: secs - 1, nanos: NANOS_PER_SEC - reading.nanos }
            }
        } else {
            Timestamp { secs: i64::MIN, nanos: 0 }
        }
    }

    /// The current time.
    fn now() -> (r: Timestamp)
        ensures
            r.nanos < NANOS_PER_SEC,
    {
        Timestamp::from_clock(read_clock())
    }
}

/// The number of nanoseconds in a second.
pub const NANOS_PER_SEC: u32 = 1_000_000_000;

/// How far the system clock stands from the Unix epoch, and on which side of it.
#[derive(Clone, Copy, Debug, PartialEq, Eq, Structural)]
pub struct ClockReading {
    pub before_epoch: bool,
    pub secs: u64,
    pub nanos: u32,
}

impl ClockReading {
    /// The reading in nanoseconds since the Unix epoch, negative before it.
    pub open spec fn epoch_nanos(self) -> int {
        let distance = self.secs * NANOS_PER_SEC + self.nanos;
        if self.before_epoch {
            -distance
        } else {
            distance
        }
    }
}

/// `SystemTime::elapsed`, asked of `std`'s `UNIX_EPOCH`, tells how far the system clock stands from
/// the epoch, or, as an error, how far before it. Of the distance nothing is said but that its
/// fraction is less than a second: it rests on the clock.
#[verifier::external_body]
fn read_clock() -> (r: ClockReading)
    ensures
        r.nanos < NANOS_PER_SEC,
{
    match std::time::UNIX_EPOCH.elapsed() {
        Ok(d) => ClockReading { before_epoch: false, secs: d.as_secs(), nanos: d.subsec_nanos() },
        Err(e) => ClockReading {
            before_epoch: true,
            secs: e.duration().as_secs(),
            nanos: e.duration().subsec_nanos(),
        },
    }
}

/// One line of the log.
#[derive(Clone, Debug)]
pub struct RibbonEvent {
    /// When the event happened.
    pub ts: Timestamp,
    /// The agent that reports.
    pub agent: String,
    /// What it reports.
    pub event_type: EventType,
    /// The task that the event is about.
    pub task: Option<String>,
    /// A message in free text.
    pub msg: Option<String>,
    /// The hash of a commit.
    pub commit: Option<String>,
}

/// What an event says, with its strings as sequences of characters.
pub struct EventView {
    pub ts: Timestamp,
    pub agent: Seq<char>,
    pub event_type: EventType,
    pub task: Option<Seq<char>>,
    pub msg: Option<Seq<char>>,
    pub commit: Option<Seq<char>>,
}

impl View for RibbonEvent {
    type V = EventView;

    open spec fn view(&self) -> EventView {
        EventView {
            ts: self.ts,
            agent: self.agent@,
            event_type: self.event_type,
            task: text::opt_view(self.task),
            msg: text::opt_view(self.msg),
            commit: text::opt_view(self.commit),
        }
    }
}

/// What a sequence of events says.
pub open spec fn event_views(events: Seq<RibbonEvent>) -> Seq<EventView> {
    events.map_values(|e: RibbonEvent| e@)
}

/// The task of the event, as it is compared with others.
pub open spec fn task_name(e: EventView) -> Seq<char> {
    text::normalized(e.task->0)
}

/// The event ends the task `name`.
pub open spec fn ends_name(e: EventView, name: Seq<char>) -> bool {
    e.event_type.terminates() && e.task is Some && task_name(e) == name
}

/// The last event of which `p` holds.
pub open spec fn latest(events: Seq<EventView>, p: spec_fn(EventView) -> bool) -> Option<EventView>
    decreases events.len(),
{
    if events.len() == 0 {
        None
    } else if p(events.last()) {
        Some(events.last())
    } else {
        latest(events.drop_last(), p)
    }
}

impl RibbonEvent {
    /// An event of the current time without task, message and commit.
    pub fn new<T: Into<String>>(agent: T, event_type: EventType) -> (r: RibbonEvent)
        ensures
            r.ts.nanos < NANOS_PER_SEC,
            call_ensures(<T as Into<String>>::into, (agent,), r.agent),
            r.event_type == event_type,
            r.task is None,
            r.msg is None,
            r.commit is None,
    {
        RibbonEvent {
            ts: Timestamp::now(),
            agent: agent.into(),
            event_type,
            task: None,
            msg: None,
            commit: None,
        }
    }

    /// The event with the given task.
    pub fn with_task<T: Into<String>>(self, task: T) -> (r: RibbonEvent)
        ensures
            r.task matches Some(t) && call_ensures(<T as Into<String>>::into, (task,), t),
            r == (RibbonEvent { task: r.task, ..self }),
    {
        RibbonEvent { task: Some(task.into()), ..self }
    }

    /// The event with the given message.
    pub fn with_msg<T: Into<String>>(self, msg: T) -> (r: RibbonEvent)
        ensures
            r.msg matches Some(t) && call_ensures(<T as Into<String>>::into, (msg,), t),
            r == (RibbonEvent { msg: r.msg, ..self }),
    {
        RibbonEvent { msg: Some(msg.into()), ..self }
    }

    /// The event with the given commit hash.
    pub fn with_commit<T: Into<String>>(self, commit: T) -> (r: RibbonEvent)
        ensures
            r.commit matches Some(t) && call_ensures(<T as Into<String>>::into, (commit,), t),
            r == (RibbonEvent { commit: r.commit, ..self }),
    {
        RibbonEvent { commit: Some(commit.into()), ..self }
    }
}

/// A step that an agent may take: from the state that an event of type `from` put it into, or
/// from `idle` where that is `None`, by an event of type `to`.
#[derive(Clone, Copy, Debug, PartialEq, Eq, Structural)]
pub struct Transition {
    pub from: Option<EventType>,
    pub to: EventType,
}

/// The steps that agents may take, in the order in which they are suggested.
#[derive(Clone, Debug)]
pub struct StateMachine {
    pub transitions: Vec<Transition>,
}

/// The event types that `steps` allow after `prev`, in order.
pub open spec fn successors(steps: Seq<Transition>, prev: Option<EventType>) -> Seq<EventType> {
    steps.filter(|t: Transition| t.from == prev).map_values(|t: Transition| t.to)
}

impl StateMachine {
    /// The event types that may follow `prev`.
    pub fn suggest(&self, prev: Option<&EventType>) -> (r: Vec<EventType>)
        ensures
            r@ == successors(
                self.transitions@,
                match prev {
                    Some(et) => Some(*et),
                    None => None,
                },
            ),
    {
        let from: Option<EventType> = match prev {
            Some(et) => Some(*et),
            None => None,
        };
        let mut out: Vec<EventType> = Vec::new();
        let ghost steps = self.transitions@;
        assert(out@ =~= successors(steps.take(0), from)) by {
            reveal(Seq::filter);
        }
        for i in 0..self.transitions.len()
            invariant
                steps == self.transitions@,
                out@ == successors(steps.take(i as int), from),
        {
            let step = self.transitions[i];
            proof {
                reveal(Seq::filter);
                assert(steps.take(i + 1).drop_last() =~= steps.take(i as int));
            }
            let hit = match (step.from, from) {
                (None, None) => true,
                (Some(a), Some(b)) => a == b,
                _ => false,
            };
            if hit {
                let ghost kept = steps.take(i as int).filter(|t: Transition| t.from == from);
                out.push(step.to);
                assert(out@ =~= kept.push(step).map_values(|t: Transition| t.to));
            }
        }
        assert(steps.take(steps.len() as int) =~= steps);
        out
    }
}

/// The steps that agents take in this project. A task that has ended allows none.
pub open spec fn project_steps() -> Seq<Transition> {
    seq![
        Transition { from: None, to: EventType::Submitted },
        Transition { from: None, to: EventType::Working },
        Transition { from: Some(EventType::Submitted), to: EventType::Working },
        Transition { from: Some(EventType::Submitted), to: EventType::Failed },
        Transition { from: Some(EventType::Working), to: EventType::Committed },
        Transition { from: Some(EventType::Working), to: EventType::Completed },
        Transition { from: Some(EventType::Working), to: EventType::Failed },
        Transition { from: Some(EventType::Working), to: EventType::Blocked },
        Transition { from: Some(EventType::Working), to: EventType::Confused },
        Transition { from: Some(EventType::Working), to: EventType::Sudo },
        Transition { from: Some(EventType::Working), to: EventType::Hitl },
        Transition { from: Some(EventType::Committed), to: EventType::Working },
        Transition { from: Some(EventType::Committed), to: EventType::Completed },
        Transition { from: Some(EventType::Committed), to: EventType::Failed },
        Transition { from: Some(EventType::Blocked), to: EventType::Working },
        Transition { from: Some(EventType::Blocked), to: EventType::Failed },
        Transition { from: Some(EventType::Confused), to: EventType::Working },
        Transition { from: Some(EventType::Confused), to: EventType::Failed },
        Transition { from: Some(EventType::Sudo), to: EventType::SudoGranted },
        Transition { from: Some(EventType::Sudo), to: EventType::SudoDenied },
        Transition { from: Some(EventType::Hitl), to: EventType::HitlResolved },
    ]
}

/// The state machine of this project.
pub fn state_machine() -> (r: StateMachine)
    ensures
        r.transitions@ == project_steps(),
{
    StateMachine {
        transitions: vec![
            Transition { from: None, to: EventType::Submitted },
            Transition { from: None, to: EventType::Working },
            Transition { from: Some(EventType::Submitted), to: EventType::Working },
            Transition { from: Some(EventType::Submitted), to: EventType::Failed },
            Transition { from: Some(EventType::Working), to: EventType::Committed },
            Transition { from: Some(EventType::Working), to: EventType::Completed },
            Transition { from: Some(EventType::Working), to: EventType::Failed },
            Transition { from: Some(EventType::Working), to: EventType::Blocked },
            Transition { from: Some(EventType::Working), to: EventType::Confused },
            Transition { from: Some(EventType::Working), to: EventType::Sudo },
            Transition { from: Some(EventType::Working), to: EventType::Hitl },
            Transition { from: Some(EventType::Committed), to: EventType::Working },
            Transition { from: Some(EventType::Committed), to: EventType::Completed },
            Transition { from: Some(EventType::Committed), to: EventType::Failed },
            Transition { from: Some(EventType::Blocked), to: EventType::Working },
            Transition { from: Some(EventType::Blocked), to: EventType::Failed },
            Transition { from: Some(EventType::Confused), to: EventType::Working },
            Transition { from: Some(EventType::Confused), to: EventType::Failed },
            Transition { from: Some(EventType::Sudo), to: EventType::SudoGranted },
            Transition { from: Some(EventType::Sudo), to: EventType::SudoDenied },
            Transition { from: Some(EventType::Hitl), to: EventType::HitlResolved },
        ],
    }
}

/// The last event of which `p` holds is one of the events, `p` holds of it, and of none after it.
pub proof fn lemma_latest_is_last(events: Seq<EventView>, p: spec_fn(EventView) -> bool) -> (i: int)
    ensures
        match latest(events, p) {
            Some(e) => {
                &&& 0 <= i < events.len()
                &&& events[i] == e
                &&& p(e)
                &&& forall|j: int| i < j < events.len() ==> !p(#[trigger] events[j])
            },
            None => forall|j: int| 0 <= j < events.len() ==> !p(#[trigger] events[j]),
        },
    decreases events.len(),
{
    if events.len() == 0 {
        0
    } else if p(events.last()) {
        events.len() - 1
    } else {
        let shorter = events.drop_last();
        let i = lemma_latest_is_last(shorter, p);
        assert forall|j: int|
            (if latest(shorter, p) is Some {
                i < j
            } else {
                0 <= j
            }) && j < events.len() implies !p(#[trigger] events[j]) by {
            if j < shorter.len() {
                assert(events[j] == shorter[j]);
            }
        }
        i
    }
}

/// An event of which `p` holds, but of none after it, is the last one of which `p` holds.
pub proof fn lemma_latest_at(events: Seq<EventView>, p: spec_fn(EventView) -> bool, i: int)
    requires
        0 <= i < events.len(),
        p(events[i]),
        forall|j: int| i < j < events.len() ==> !p(#[trigger] events[j]),
    ensures
        latest(events, p) == Some(events[i]),
    decreases events.len(),
{
    if i < events.len() - 1 {
        let shorter = events.drop_last();
        assert(!p(events[events.len() - 1]));
        assert forall|j: int| i < j < shorter.len() implies !p(#[trigger] shorter[j]) by {
            assert(shorter[j] == events[j]);
        }
        lemma_latest_at(shorter, p, i);
    }
}

/// The last event of which `p` holds in two sequences in a row is that of the second, or, where it
/// has none, that of the first.
pub proof fn lemma_latest_in_a_row(
    first: Seq<EventView>,
    second: Seq<EventView>,
    p: spec_fn(EventView) -> bool,
)
    ensures
        latest(first + second, p) == (if latest(second, p) is Some {
            latest(second, p)
        } else {
            latest(first, p)
        }),
    decreases second.len(),
{
    if second.len() == 0 {
        assert(first + second =~= first);
    } else {
        assert((first + second).drop_last() =~= first + second.drop_last());
        lemma_latest_in_a_row(first, second.drop_last(), p);
    }
}

/// An event of which `p` does not hold makes no difference to the last event of which it holds.
pub proof fn lemma_latest_without(
    before: Seq<EventView>,
    e: EventView,
    after: Seq<EventView>,
    p: spec_fn(EventView) -> bool,
)
    requires
        !p(e),
    ensures
        latest(before + seq![e] + after, p) == latest(before + after, p),
{
    lemma_latest_in_a_row(before + seq![e], after, p);
    lemma_latest_in_a_row(before, after, p);
    assert((before + seq![e]).drop_last() =~= before);
}

/// After an event that ends a task there is no further step.
pub proof fn law_no_step_after_the_end(et: EventType)
    requires
        et.terminates(),
    ensures
        successors(project_steps(), Some(et)) == Seq::<EventType>::empty(),
{
    let steps = project_steps();
    let p = |t: Transition| t.from == Some(et);
    assert forall|i: int| 0 <= i < steps.len() implies !p(#[trigger] steps[i]) by {}
    lemma_filter_none(steps, p);
    assert(successors(steps, Some(et)) =~= Seq::empty());
}

/// A sequence in which no element meets `p` has nothing left when it is filtered by `p`.
pub(crate) proof fn lemma_filter_none<T>(s: Seq<T>, p: spec_fn(T) -> bool)
    requires
        forall|i: int| 0 <= i < s.len() ==> !p(#[trigger] s[i]),
    ensures
        s.filter(p) == Seq::<T>::empty(),
    decreases s.len(),
{
    reveal(Seq::filter);
    if s.len() > 0 {
        let shorter = s.drop_last();
        assert(!p(s[s.len() - 1]));
        assert forall|i: int| 0 <= i < shorter.len() implies !p(#[trigger] shorter[i]) by {
            assert(shorter[i] == s[i]);
        }
        lemma_filter_none(shorter, p);
    }
}

} // verus!
