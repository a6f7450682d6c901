//! The format of the log and the messages of errors.
use crate::error::StoreError;
use crate::event::RibbonEvent;
use crate::log::{LineStep, LogReader, Taken};
use crate::{error, log, text};
use vstd::prelude::*;
use vstd::utf8::*;

verus! {

/// A line ends at the first newline, or where the bytes do.
pub proof fn law_line_end(bytes: Seq<u8>)
    ensures
        log::line_end(bytes) <= bytes.len(),
        forall|k: int| 0 <= k < log::line_end(bytes) ==> #[trigger] bytes[k] != 10u8,
        log::line_end(bytes) < bytes.len() ==> bytes[log::line_end(bytes) as int] == 10u8,
    decreases bytes.len(),
{
    if bytes.len() > 0 && bytes.first() != log::NEWLINE {
        let rest = bytes.drop_first();
        law_line_end(rest);
        assert forall|k: int| 0 <= k < log::line_end(bytes) implies #[trigger] bytes[k]
            != 10u8 by {
            if k > 0 {
                assert(rest[k - 1] == bytes[k]);
            }
        }
    }
}

/// The lines one after the other, each with a newline.
pub open spec fn joined(lines: Seq<Seq<u8>>) -> Seq<u8>
    decreases lines.len(),
{
    if lines.len() == 0 {
        Seq::empty()
    } else {
        lines.first() + seq![10u8] + joined(lines.drop_first())
    }
}

/// The lines of a log hold no newline, and with their newlines they are the log, to which the last
/// newline may be missing.
pub proof fn law_lines(bytes: Seq<u8>)
    ensures
        joined(log::lines_of(bytes)) == (if bytes.len() == 0 || bytes.last() == 10u8 {
            bytes
        } else {
            bytes.push(10u8)
        }),
        forall|i: int, k: int|
            0 <= i < log::lines_of(bytes).len() && 0 <= k < log::lines_of(bytes)[i].len()
                ==> #[trigger] log::lines_of(bytes)[i][k] != 10u8,
    decreases bytes.len(),
{
    let lines = log::lines_of(bytes);
    law_line_end(bytes);
    let end = log::line_end(bytes) as int;
    if bytes.len() == 0 {
    } else if end < bytes.len() {
        let head = bytes.take(end);
        let rest = bytes.skip(end + 1);
        law_lines(rest);
        assert(lines.drop_first() =~= log::lines_of(rest));
        assert(lines.first() == head);
        assert(rest.len() > 0 ==> rest.last() == bytes.last());
        assert(bytes =~= head + seq![10u8] + rest);
        assert(rest.len() > 0 && rest.last() != 10u8 ==> bytes.push(10u8) =~= head + seq![10u8]
            + rest.push(10u8));
        assert forall|i: int, k: int|
            0 <= i < lines.len() && 0 <= k < lines[i].len() implies #[trigger] lines[i][k]
            != 10u8 by {
            if i > 0 {
                assert(lines[i] == log::lines_of(rest)[i - 1]);
            } else {
                assert(lines[0][k] == bytes[k]);
            }
        }
    } else {
        assert(lines.drop_first() =~= Seq::empty());
        assert(lines.first() == bytes);
        assert(bytes[bytes.len() - 1] != 10u8);
        reveal_with_fuel(joined, 2);
        assert(joined(lines) =~= bytes.push(10u8));
    }
}

/// A line that is not text ends reading; one of white space is skipped; of any other, what stands
/// between the white space at its ends is to be parsed.
pub proof fn law_line_step(line: Seq<u8>)
    ensures
        log::step_view(line) is Unreadable <==> !valid_utf8(line),
        log::step_view(line) is Blank <==> valid_utf8(line) && forall|i: int|
            0 <= i < decode_utf8(line).len() ==> text::is_white_space(
                #[trigger] decode_utf8(line)[i],
            ),
        log::step_view(line) matches log::StepView::Parse(t) ==> t.len() > 0
            && super::texts::is_core(t, decode_utf8(line)),
        log::step_view(line) matches log::StepView::Unreadable(e) ==> e
            == error::ErrorView::Io("stream did not contain valid UTF-8"@),
{
    let s = decode_utf8(line);
    super::texts::law_trimmed(s);
    if text::is_blank(s) {
        let empty = Seq::<char>::empty();
        let n = s.len() as int;
        assert(s.subrange(n, n) =~= empty);
        assert(super::texts::is_core(empty, s));
        super::texts::law_one_core(empty, text::trimmed(s), s);
    }
    if text::trimmed(s).len() == 0 {
        let (i, j) = choose|i: int, j: int|
            {
                &&& 0 <= i <= j <= s.len()
                &&& text::trimmed(s) == #[trigger] s.subrange(i, j)
                &&& forall|k: int| 0 <= k < i ==> text::is_white_space(#[trigger] s[k])
                &&& forall|k: int| j <= k < s.len() ==> text::is_white_space(#[trigger] s[k])
                &&& i < j ==> !text::is_white_space(s[i]) && !text::is_white_space(s[j - 1])
            };
        assert(i == j);
        assert forall|k: int| 0 <= k < s.len() implies text::is_white_space(#[trigger] s[k]) by {}
    }
}

/// A framed line is the line and then a newline.
pub proof fn law_framed(line: &str, r: String)
    requires
        call_ensures(log::frame_line, (line,), r),
    ensures
        r@.len() == line@.len() + 1,
        forall|i: int| 0 <= i < line@.len() ==> #[trigger] r@[i] == line@[i],
        r@[line@.len() as int] == '\n',
{
}

/// The message of an error says what went wrong, where that is known, and why.
pub proof fn law_messages(e: &StoreError, r: String)
    requires
        call_ensures(StoreError::message, (e,), r),
    ensures
        match e {
            StoreError::Io(reason) => r@ == "I/O error: "@ + reason@,
            StoreError::Json { line, source } => r@ == "JSON error at line "@ + text::decimal(
                *line as nat,
            ) + ": "@ + source@,
            StoreError::NotFound(path) => r@ == "File not found: "@ + path@,
        },
{
}

/// A reader takes the bytes of a piece up to its first newline, which it takes too but does not
/// keep, or all of them. What it has read so far stays.
pub proof fn law_fed(reader: &mut LogReader, chunk: &[u8], r: Taken)
    requires
        call_ensures(LogReader::feed, (reader, chunk), r),
    ensures
        ({
            let was = old(reader).pending();
            let is = final(reader).pending();
            let kept = is.len() - was.len();
            &&& r.used <= chunk@.len()
            &&& kept == r.used - (if r.complete {
                1int
            } else {
                0
            })
            &&& r.complete ==> chunk@[kept] == 10u8
            &&& !r.complete ==> r.used == chunk@.len()
            &&& forall|k: int| 0 <= k < kept ==> #[trigger] chunk@[k] != 10u8
            &&& forall|k: int| 0 <= k < was.len() ==> #[trigger] is[k] == was[k]
            &&& forall|k: int| was.len() <= k < is.len() ==> #[trigger] is[k] == chunk@[k
                - was.len()]
            &&& final(reader).line_num() == old(reader).line_num()
            &&& final(reader).events() == old(reader).events()
        }),
{
    law_line_end(chunk@);
}

/// A line that is handed out counts and is no longer pending. It is unreadable where its bytes are
/// no text, blank where they are white space, and otherwise to be parsed without the white space
/// at its ends.
pub proof fn law_line_taken(reader: &mut LogReader, r: LineStep)
    requires
        call_ensures(LogReader::take_line, (reader,), r),
    ensures
        ({
            let line = old(reader).pending();
            let s = decode_utf8(line);
            &&& final(reader).pending().len() == 0
            &&& final(reader).line_num() == old(reader).line_num() + 1
            &&& final(reader).events() == old(reader).events()
            &&& match r {
                LineStep::Unreadable(e) => {
                    &&& !valid_utf8(line)
                    &&& e matches StoreError::Io(reason) && reason@
                        == "stream did not contain valid UTF-8"@
                },
                LineStep::Blank => {
                    &&& valid_utf8(line)
                    &&& forall|i: int|
                        0 <= i < s.len() ==> text::is_white_space(#[trigger] s[i])
                },
                LineStep::Parse(t) => {
                    &&& valid_utf8(line)
                    &&& t@.len() > 0
                    &&& super::texts::is_core(t@, s)
                },
            }
        }),
{
    law_line_step(old(reader).pending());
}

/// An event is added to those read, without a warning. Where the last line stood for none, a
/// warning tells its number and the reason, and the events stay.
pub proof fn law_accepted(
    reader: &mut LogReader,
    outcome: Result<RibbonEvent, String>,
    r: Option<String>,
)
    requires
        call_ensures(LogReader::accept, (reader, outcome), r),
    ensures
        final(reader).pending() == old(reader).pending(),
        final(reader).line_num() == old(reader).line_num(),
        outcome matches Ok(e) ==> {
            let was = old(reader).events();
            let is = final(reader).events();
            r is None && is.len() == was.len() + 1 && is.last() == e && is.drop_last() == was
        },
        outcome matches Err(reason) ==> final(reader).events() == old(reader).events(),
        outcome matches Err(reason) ==> (r matches Some(w) && w@
            == "ribbon: warning: skipping malformed line "@ + text::decimal(
            old(reader).line_num() as nat,
        ) + ": "@ + reason@),
{
}

/// A reader begins with nothing read, and gives out all that it has read.
pub proof fn law_reader_ends(start: LogReader, end: LogReader, r: Vec<RibbonEvent>)
    requires
        call_ensures(LogReader::new, (), start),
        call_ensures(LogReader::into_events, (end,), r),
    ensures
        start.pending().len() == 0,
        start.line_num() == 0,
        start.events().len() == 0,
        r@ == end.events(),
{
}

} // verus!
