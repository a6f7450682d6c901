//! The format of the log: one event per line, each line ended by a newline.
//!
//! A [`LogReader`] takes the bytes of a log as they come, in pieces of any size, and finds the
//! lines in them. Turning the text of a line into an event is left to its user, who hands the
//! outcome back.
use crate::error::StoreError;
use crate::event::RibbonEvent;
use crate::{error, event, text};
use vstd::prelude::*;
use vstd::utf8::*;

verus! {

/// The byte that ends a line.
pub const NEWLINE: u8 = 10;

/// The position of the first newline, or the length where there is none.
pub open spec fn line_end(bytes: Seq<u8>) -> nat
    decreases bytes.len(),
{
    if bytes.len() == 0 || bytes.first() == NEWLINE {
        0
    } else {
        1 + line_end(bytes.drop_first())
    }
}

/// The lines of a log, without their newlines. After the last newline there is a further line only
/// if there are further bytes.
pub open spec fn lines_of(log: Seq<u8>) -> Seq<Seq<u8>>
    decreases log.len(),
{
    if log.len() == 0 {
        Seq::empty()
    } else if line_end(log) < log.len() {
        seq![log.take(line_end(log) as int)] + lines_of(log.skip(line_end(log) as int + 1))
    } else {
        seq![log]
    }
}

/// What is to be done with a line.
pub enum StepView {
    /// Nothing: the line is blank.
    Blank,
    /// Turn this text into an event.
    Parse(Seq<char>),
    /// Give up, for this reason.
    Unreadable(error::ErrorView),
}

/// What is to be done with the line of the given bytes.
pub open spec fn step_view(line: Seq<u8>) -> StepView {
    if !valid_utf8(line) {
        StepView::Unreadable(error::ErrorView::Io("stream did not contain valid UTF-8"@))
    } else if text::trimmed(decode_utf8(line)).len() == 0 {
        StepView::Blank
    } else {
        StepView::Parse(text::trimmed(decode_utf8(line)))
    }
}

/// What is to be done with a line.
#[derive(Clone, Debug, PartialEq, Eq)]
pub enum LineStep {
    /// Nothing: the line is blank.
    Blank,
    /// Turn this text into an event and hand the outcome to [`LogReader::accept`].
    Parse(String),
    /// Give up, for this reason.
    Unreadable(StoreError),
}

impl View for LineStep {
    type V = StepView;

    open spec fn view(&self) -> StepView {
        match self {
            LineStep::Blank => StepView::Blank,
            LineStep::Parse(t) => StepView::Parse(t@),
            LineStep::Unreadable(e) => StepView::Unreadable(e@),
        }
    }
}

/// What a reader took of a piece of the log.
#[derive(Clone, Copy, Debug, PartialEq, Eq, Structural)]
pub struct Taken {
    /// The number of bytes that it took.
    pub used: usize,
    /// Whether they complete a line.
    pub complete: bool,
}

/// Reads the events of a log.
#[derive(Debug)]
pub struct LogReader {
    /// The bytes of the current line that have been taken.
    pending: Vec<u8>,
    /// The number of lines that have been handed out.
    line_num: usize,
    /// The events that have been accepted.
    events: Vec<RibbonEvent>,
}

impl LogReader {
    /// The bytes of the current line that have been taken.
    pub closed spec fn pending(self) -> Seq<u8> {
        self.pending@
    }

    /// The number of lines that have been handed out.
    pub closed spec fn line_num(self) -> usize {
        self.line_num
    }

    /// The events that have been accepted.
    pub closed spec fn events(self) -> Seq<RibbonEvent> {
        self.events@
    }

    /// What has been taken of the current line holds no newline.
    pub open spec fn well_formed(self) -> bool {
        !self.pending().contains(NEWLINE)
    }

    /// A reader at the start of a log.
    pub fn new() -> (r: LogReader)
        ensures
            r.well_formed(),
            r.pending() == Seq::<u8>::empty(),
            r.line_num() == 0,
            r.events() == Seq::<RibbonEvent>::empty(),
    {
        LogReader { pending: Vec::new(), line_num: 0, events: Vec::new() }
    }

    /// Takes the bytes up to and including the first newline, or all where there is none.
    pub fn feed(&mut self, chunk: &[u8]) -> (r: Taken)
        requires
            old(self).well_formed(),
        ensures
            final(self).well_formed(),
            final(self).pending() == old(self).pending() + chunk@.take(line_end(chunk@) as int),
            final(self).line_num() == old(self).line_num(),
            final(self).events() == old(self).events(),
            r.complete == (line_end(chunk@) < chunk@.len()),
            r.used == line_end(chunk@) + (if r.complete {
                1int
            } else {
                0
            }),
    {
        let ghost start = self.pending@;
        let mut i: usize = 0;
        assert(chunk@.skip(0) =~= chunk@);
        assert(start + chunk@.take(0) =~= start);
        while i < chunk.len() && chunk[i] != NEWLINE
            invariant
                i <= chunk.len(),
                line_end(chunk@) == i + line_end(chunk@.skip(i as int)),
                self.line_num == old(self).line_num,
                self.events == old(self).events,
                self.pending@ == start + chunk@.take(i as int),
                !self.pending@.contains(NEWLINE),
            decreases chunk.len() - i,
        {
            assert(chunk@.skip(i as int).first() == chunk@[i as int]);
            assert(chunk@.skip(i as int).drop_first() =~= chunk@.skip(i + 1));
            assert(chunk@.take(i + 1) =~= chunk@.take(i as int).push(chunk@[i as int]));
            let ghost before = self.pending@;
            self.pending.push(chunk[i]);
            assert(self.pending@ =~= start + chunk@.take(i + 1));
            assert forall|k: int| 0 <= k < self.pending@.len() implies self.pending@[k]
                != NEWLINE by {
                if k < before.len() {
                    assert(before.contains(before[k]));
                }
            }
            i = i + 1;
        }
        if i < chunk.len() {
            assert(chunk@.skip(i as int).first() == NEWLINE);
            Taken { used: i + 1, complete: true }
        } else {
            Taken { used: i, complete: false }
        }
    }

    /// Whether bytes of a line have been taken that has not been handed out.
    pub fn has_pending(&self) -> (r: bool)
        ensures
            r == (self.pending().len() > 0),
    {
        self.pending.len() > 0
    }

    /// Hands out the line whose bytes have been taken.
    pub fn take_line(&mut self) -> (r: LineStep)
        requires
            old(self).well_formed(),
            old(self).line_num() < usize::MAX,
        ensures
            final(self).well_formed(),
            final(self).pending() == Seq::<u8>::empty(),
            final(self).line_num() == old(self).line_num() + 1,
            final(self).events() == old(self).events(),
            r@ == step_view(old(self).pending()),
    {
        self.line_num = self.line_num + 1;
        let step = match text::utf8_text(self.pending.as_slice()) {
            None => LineStep::Unreadable(
                StoreError::Io(String::from("stream did not contain valid UTF-8")),
            ),
            Some(line) => {
                let trimmed = line.trim();
                if trimmed.is_empty() {
                    LineStep::Blank
                } else {
                    LineStep::Parse(String::from(trimmed))
                }
            },
        };
        self.pending = Vec::new();
        step
    }

    /// Accepts what became of the text of the last line: the event, which is added to those read,
    /// or the reason why it is none. Returns the warning to give in that case.
    pub fn accept(&mut self, outcome: Result<RibbonEvent, String>) -> (r: Option<String>)
        requires
            old(self).well_formed(),
        ensures
            final(self).well_formed(),
            final(self).pending() == old(self).pending(),
            final(self).line_num() == old(self).line_num(),
            match outcome {
                Ok(e) => final(self).events() == old(self).events().push(e) && r is None,
                Err(reason) => {
                    &&& final(self).events() == old(self).events()
                    &&& r matches Some(w) && w@ == "ribbon: warning: skipping malformed line "@
                        + text::decimal(old(self).line_num() as nat) + ": "@ + reason@
                },
            },
    {
        match outcome {
            Ok(e) => {
                self.events.push(e);
                None
            },
            Err(reason) => {
                let mut warning = String::from("ribbon: warning: skipping malformed line ");
                warning.append(text::decimal_text(self.line_num).as_str());
                warning.append(": ");
                warning.append(reason.as_str());
                Some(warning)
            },
        }
    }

    /// The events that have been accepted, in file order.
    pub fn into_events(self) -> (r: Vec<RibbonEvent>)
        ensures
            r@ == self.events(),
    {
        self.events
    }
}

/// An event in the log: its text and a newline.
pub open spec fn framed(line: Seq<char>) -> Seq<char> {
    line.push('\n')
}

/// The text to append to the log for an event whose JSON is `line`.
pub fn frame_line(line: &str) -> (r: String)
    ensures
        r@ == framed(line@),
{
    let mut r = String::from(line);
    r.append("\n");
    proof {
        reveal_strlit("\n");
        assert(r@ =~= line@.push('\n'));
    }
    r
}

/// The events that reading `lines` adds to `events`, where `parse` tells what the text of a line
/// stands for, if anything. `None` where a line cannot be read.
pub open spec fn read_on(
    events: Seq<event::EventView>,
    lines: Seq<Seq<u8>>,
    parse: spec_fn(Seq<char>) -> Option<event::EventView>,
) -> Option<Seq<event::EventView>>
    decreases lines.len(),
{
    if lines.len() == 0 {
        Some(events)
    } else {
        match step_view(lines.first()) {
            StepView::Unreadable(_) => None,
            StepView::Blank => read_on(events, lines.drop_first(), parse),
            StepView::Parse(t) => match parse(t) {
                Some(e) => read_on(events.push(e), lines.drop_first(), parse),
                None => read_on(events, lines.drop_first(), parse),
            },
        }
    }
}

/// The events of a log.
pub open spec fn read_log(
    log: Seq<u8>,
    parse: spec_fn(Seq<char>) -> Option<event::EventView>,
) -> Option<Seq<event::EventView>> {
    read_on(Seq::empty(), lines_of(log), parse)
}

/// The log is empty or its last line is complete.
pub open spec fn is_closed(log: Seq<u8>) -> bool {
    log.len() == 0 || log.last() == NEWLINE
}

/// The bytes that appending an event with the text `line` adds to the log.
pub open spec fn appended(line: Seq<char>) -> Seq<u8> {
    encode_utf8(framed(line))
}

/// The bytes that appending events with the given texts, one after the other, adds to the log.
pub open spec fn appended_all(lines: Seq<Seq<char>>) -> Seq<u8>
    decreases lines.len(),
{
    if lines.len() == 0 {
        Seq::empty()
    } else {
        appended_all(lines.drop_last()) + appended(lines.last())
    }
}

proof fn lemma_line_end(bytes: Seq<u8>)
    ensures
        line_end(bytes) <= bytes.len(),
        !bytes.take(line_end(bytes) as int).contains(NEWLINE),
        line_end(bytes) < bytes.len() ==> bytes[line_end(bytes) as int] == NEWLINE,
    decreases bytes.len(),
{
    if bytes.len() > 0 && bytes.first() != NEWLINE {
        let rest = bytes.drop_first();
        lemma_line_end(rest);
        let head = bytes.take(line_end(bytes) as int);
        assert forall|k: int| 0 <= k < head.len() implies head[k] != NEWLINE by {
            if k > 0 {
                let tail = rest.take(line_end(rest) as int);
                assert(tail[k - 1] == head[k]);
                assert(tail.contains(tail[k - 1]));
            }
        }
    }
}

proof fn lemma_line_end_after(a: Seq<u8>, b: Seq<u8>)
    requires
        !a.contains(NEWLINE),
    ensures
        line_end(a + b) == a.len() + line_end(b),
    decreases a.len(),
{
    if a.len() == 0 {
        assert(a + b =~= b);
    } else {
        assert(a.contains(a.first()));
        assert((a + b).drop_first() =~= a.drop_first() + b);
        assert forall|k: int| 0 <= k < a.drop_first().len() implies a.drop_first()[k]
            != NEWLINE by {
            assert(a.contains(a[k + 1]));
        }
        lemma_line_end_after(a.drop_first(), b);
    }
}

proof fn lemma_line_end_within(a: Seq<u8>, b: Seq<u8>)
    requires
        line_end(a) < a.len(),
    ensures
        line_end(a + b) == line_end(a),
    decreases a.len(),
{
    if a.first() != NEWLINE {
        assert((a + b).drop_first() =~= a.drop_first() + b);
        lemma_line_end_within(a.drop_first(), b);
    }
}

proof fn lemma_lines_of_closed(a: Seq<u8>, b: Seq<u8>)
    requires
        is_closed(a),
    ensures
        lines_of(a + b) == lines_of(a) + lines_of(b),
    decreases a.len(),
{
    if a.len() == 0 {
        assert(a + b =~= b);
        assert(lines_of(a) + lines_of(b) =~= lines_of(b));
    } else {
        let end = line_end(a) as int;
        lemma_line_end(a);
        if end == a.len() {
            assert(a.take(end).contains(a[a.len() - 1])) by {
                assert(a.take(end)[a.len() - 1] == a.last());
            }
        }
        lemma_line_end_within(a, b);
        let rest = a.skip(end + 1);
        assert((a + b).take(end) =~= a.take(end));
        assert((a + b).skip(end + 1) =~= rest + b);
        assert(rest.len() > 0 ==> rest.last() == a.last());
        lemma_lines_of_closed(rest, b);
        assert(lines_of(a + b) =~= lines_of(a) + lines_of(b));
    }
}

proof fn lemma_one_line(line: Seq<u8>, rest: Seq<u8>)
    requires
        !line.contains(NEWLINE),
    ensures
        lines_of(line + seq![NEWLINE] + rest) == seq![line] + lines_of(rest),
{
    let tail = seq![NEWLINE] + rest;
    let whole = line + seq![NEWLINE] + rest;
    assert(whole =~= line + tail);
    lemma_line_end_after(line, tail);
    assert(line_end(tail) == 0);
    assert(whole.take(line.len() as int) =~= line);
    assert(whole.skip(line.len() as int + 1) =~= rest);
}

proof fn lemma_read_on_concat(
    events: Seq<event::EventView>,
    a: Seq<Seq<u8>>,
    b: Seq<Seq<u8>>,
    parse: spec_fn(Seq<char>) -> Option<event::EventView>,
)
    ensures
        read_on(events, a + b, parse) == (match read_on(events, a, parse) {
            Some(es) => read_on(es, b, parse),
            None => None,
        }),
    decreases a.len(),
{
    if a.len() == 0 {
        assert(a + b =~= b);
    } else {
        assert((a + b).drop_first() =~= a.drop_first() + b);
        match step_view(a.first()) {
            StepView::Unreadable(_) => {},
            StepView::Blank => lemma_read_on_concat(events, a.drop_first(), b, parse),
            StepView::Parse(t) => match parse(t) {
                Some(e) => lemma_read_on_concat(events.push(e), a.drop_first(), b, parse),
                None => lemma_read_on_concat(events, a.drop_first(), b, parse),
            },
        }
    }
}

proof fn lemma_encode_push(s: Seq<char>, c: char)
    ensures
        encode_utf8(s.push(c)) == encode_utf8(s) + encode_scalar(c as u32),
    decreases s.len(),
{
    reveal_with_fuel(encode_utf8, 2);
    if s.len() == 0 {
        assert(s.push(c).drop_first() =~= s);
        assert(encode_utf8(s.push(c)) =~= encode_utf8(s) + encode_scalar(c as u32));
    } else {
        assert(s.push(c).drop_first() =~= s.drop_first().push(c));
        lemma_encode_push(s.drop_first(), c);
        assert(encode_utf8(s.push(c)) =~= encode_utf8(s) + encode_scalar(c as u32));
    }
}

proof fn lemma_char_without_newline(c: char)
    requires
        c != '\n',
    ensures
        !encode_scalar(c as u32).contains(NEWLINE),
{
    let v = c as u32;
    assert(v <= 0x7f && v != 10 ==> (v & 0x7f) as u8 != 10) by (bit_vector);
    assert(0xC0 | ((v >> 6) & 0x1F) as u8 >= 0x80u8) by (bit_vector);
    assert(0xE0 | ((v >> 12) & 0x0F) as u8 >= 0x80u8) by (bit_vector);
    assert(0xF0 | ((v >> 18) & 0x7) as u8 >= 0x80u8) by (bit_vector);
    assert(0x80 | (v & 0x3F) as u8 >= 0x80u8) by (bit_vector);
    assert(0x80 | ((v >> 6) & 0x3F) as u8 >= 0x80u8) by (bit_vector);
    assert(0x80 | ((v >> 12) & 0x3F) as u8 >= 0x80u8) by (bit_vector);
}

proof fn lemma_text_without_newline(s: Seq<char>)
    requires
        !s.contains('\n'),
    ensures
        !encode_utf8(s).contains(NEWLINE),
    decreases s.len(),
{
    if s.len() > 0 {
        let rest = s.drop_first();
        assert forall|k: int| 0 <= k < rest.len() implies rest[k] != '\n' by {
            assert(s.contains(s[k + 1]));
        }
        lemma_text_without_newline(rest);
        assert(s.contains(s[0]));
        lemma_char_without_newline(s[0]);
        let head = encode_scalar(s[0] as u32);
        let tail = encode_utf8(rest);
        assert forall|k: int| 0 <= k < (head + tail).len() implies (head + tail)[k] != NEWLINE by {
            if k < head.len() {
                assert(head.contains(head[k]));
            } else {
                assert(tail.contains(tail[k - head.len()]));
            }
        }
    }
}

proof fn lemma_appended(line: Seq<char>)
    requires
        !line.contains('\n'),
    ensures
        appended(line) == encode_utf8(line) + seq![NEWLINE],
        lines_of(appended(line)) == seq![encode_utf8(line)],
{
    lemma_encode_push(line, '\n');
    assert(10u32 & 0x7f == 10u32) by (bit_vector);
    assert(encode_scalar('\n' as u32) =~= seq![NEWLINE]);
    lemma_text_without_newline(line);
    lemma_one_line(encode_utf8(line), Seq::empty());
    assert(encode_utf8(line) + seq![NEWLINE] + Seq::empty() =~= appended(line));
    assert(seq![encode_utf8(line)] + lines_of(Seq::empty()) =~= seq![encode_utf8(line)]);
}

/// Appending adds exactly one line: a log whose lines are complete has afterwards the lines it had
/// before and then the text of the event, and its lines are complete again.
pub proof fn law_one_more_line(log: Seq<u8>, line: Seq<char>)
    requires
        is_closed(log),
        !line.contains('\n'),
    ensures
        lines_of(log + appended(line)) == lines_of(log).push(encode_utf8(line)),
        is_closed(log + appended(line)),
{
    lemma_appended(line);
    lemma_lines_of_closed(log, appended(line));
    assert(lines_of(log) + seq![encode_utf8(line)] =~= lines_of(log).push(encode_utf8(line)));
    assert((log + appended(line)).last() == NEWLINE);
}

/// The event that a text stands for, if any; a blank text stands for none.
pub open spec fn event_of(
    line: Seq<char>,
    parse: spec_fn(Seq<char>) -> Option<event::EventView>,
) -> Option<event::EventView> {
    if text::trimmed(line).len() == 0 {
        None
    } else {
        parse(text::trimmed(line))
    }
}

/// Reading gives back what was written: after a line has been appended to a log whose lines are
/// complete, reading the log gives the events it gave before and then the event that the line
/// stands for, if it stands for one.
pub proof fn law_append_then_read(
    log: Seq<u8>,
    line: Seq<char>,
    parse: spec_fn(Seq<char>) -> Option<event::EventView>,
)
    requires
        is_closed(log),
        !line.contains('\n'),
    ensures
        read_log(log + appended(line), parse) == (match (read_log(log, parse), event_of(line, parse)) {
            (Some(es), Some(e)) => Some(es.push(e)),
            (Some(es), None) => Some(es),
            (None, _) => None,
        }),
        is_closed(log + appended(line)),
{
    law_one_more_line(log, line);
    let one = seq![encode_utf8(line)];
    assert(lines_of(log).push(encode_utf8(line)) =~= lines_of(log) + one);
    lemma_read_on_concat(Seq::empty(), lines_of(log), one, parse);
    encode_utf8_valid_utf8(line);
    encode_utf8_decode_utf8(line);
    reveal_with_fuel(read_on, 2);
    assert(one.drop_first() =~= Seq::empty());
}

/// A log that was written event by event reads as exactly those events, in the order in which they
/// were appended.
pub proof fn law_read_back(
    lines: Seq<Seq<char>>,
    events: Seq<event::EventView>,
    parse: spec_fn(Seq<char>) -> Option<event::EventView>,
)
    requires
        lines.len() == events.len(),
        forall|i: int|
            0 <= i < lines.len() ==> {
                &&& !(#[trigger] lines[i]).contains('\n')
                &&& event_of(lines[i], parse) == Some(events[i])
            },
    ensures
        read_log(appended_all(lines), parse) == Some(events),
        is_closed(appended_all(lines)),
    decreases lines.len(),
{
    if lines.len() == 0 {
        assert(events =~= Seq::empty());
    } else {
        law_read_back(lines.drop_last(), events.drop_last(), parse);
        let last = lines[lines.len() - 1];
        law_append_then_read(appended_all(lines.drop_last()), last, parse);
        assert(events =~= events.drop_last().push(events.last()));
    }
}

/// Lines that are blank, and lines that stand for no event, are skipped: reading goes on as if they
/// were not there.
pub proof fn law_skipped_line(
    events: Seq<event::EventView>,
    before: Seq<Seq<u8>>,
    line: Seq<u8>,
    after: Seq<Seq<u8>>,
    parse: spec_fn(Seq<char>) -> Option<event::EventView>,
)
    requires
        match step_view(line) {
            StepView::Blank => true,
            StepView::Parse(t) => parse(t) is None,
            StepView::Unreadable(_) => false,
        },
    ensures
        read_on(events, before + seq![line] + after, parse) == read_on(
            events,
            before + after,
            parse,
        ),
{
    let tail = seq![line] + after;
    assert(before + seq![line] + after =~= before + tail);
    lemma_read_on_concat(events, before, tail, parse);
    lemma_read_on_concat(events, before, after, parse);
    assert(tail.drop_first() =~= after);
}

/// However a log is cut into pieces, a reader comes to the same events. `pending` is what it has
/// taken of the current line, `chunk` the piece that it is fed, and `rest` what follows; the events
/// that it is to read from these do not change when it is fed, nor when it hands out a complete
/// line.
pub proof fn law_feeding(
    events: Seq<event::EventView>,
    pending: Seq<u8>,
    chunk: Seq<u8>,
    rest: Seq<u8>,
    parse: spec_fn(Seq<char>) -> Option<event::EventView>,
)
    requires
        !pending.contains(NEWLINE),
    ensures
        ({
            let taken = pending + chunk.take(line_end(chunk) as int);
            let all = read_on(events, lines_of(pending + chunk + rest), parse);
            if line_end(chunk) < chunk.len() {
                let left = chunk.skip(line_end(chunk) as int + 1) + rest;
                all == read_on(events, seq![taken] + lines_of(left), parse)
            } else {
                all == read_on(events, lines_of(taken + rest), parse)
            }
        }),
{
    let end = line_end(chunk) as int;
    let taken = pending + chunk.take(end);
    lemma_line_end(chunk);
    if end < chunk.len() {
        let left = chunk.skip(end + 1) + rest;
        assert forall|k: int| 0 <= k < taken.len() implies taken[k] != NEWLINE by {
            if k < pending.len() {
                assert(pending.contains(pending[k]));
            } else {
                assert(chunk.take(end).contains(chunk.take(end)[k - pending.len()]));
            }
        }
        assert(pending + chunk + rest =~= taken + seq![NEWLINE] + left);
        lemma_one_line(taken, left);
    } else {
        assert(chunk.take(end) =~= chunk);
    }
}

/// At the end of the log the bytes of a line without a newline are its last line, and where there
/// are none all events have been read.
pub proof fn law_end_of_log(
    events: Seq<event::EventView>,
    pending: Seq<u8>,
    parse: spec_fn(Seq<char>) -> Option<event::EventView>,
)
    requires
        !pending.contains(NEWLINE),
    ensures
        lines_of(pending) == (if pending.len() > 0 {
            seq![pending]
        } else {
            Seq::empty()
        }),
        pending.len() == 0 ==> read_on(events, lines_of(pending), parse) == Some(events),
{
    lemma_line_end_after(pending, Seq::empty());
    assert(pending + Seq::empty() =~= pending);
}

} // verus!
