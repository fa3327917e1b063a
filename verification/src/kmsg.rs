//! The kernel log: which device to read it from, how its records are gathered, and
//! what it says about the vermagic that the kernel would have accepted.

use vstd::prelude::*;
use vstd::string::{StrSliceExecFns, StringExecFns};
use vstd::utf8::{encode_utf8, valid_utf8};

use crate::text::{
    chars_of, find, find_chars, lemma_find_bounds, lemma_find_in_front, lemma_find_is,
    lemma_occurs_behind, lemma_run_len, lemma_run_len_is, occurs_at, occurs_first_at, run_len,
    text_from_utf8_lossy, utf8_lossy,
};

verus! {

/// The character that ends a line.
pub open spec fn is_newline() -> spec_fn(char) -> bool {
    |c: char| c == '\n'
}

/// A line without the carriage return in front of its end.
pub open spec fn strip_return(line: Seq<char>) -> Seq<char> {
    if line.len() > 0 && line.last() == '\r' {
        line.drop_last()
    } else {
        line
    }
}

/// The lines of a text. What follows the last line end is a line unless it is
/// empty.
pub open spec fn text_lines(text: Seq<char>) -> Seq<Seq<char>>
    decreases text.len(),
{
    let n = run_len(text, is_newline()) as int;
    if text.len() == 0 {
        Seq::empty()
    } else if n >= text.len() {
        seq![text]
    } else {
        seq![strip_return(text.take(n))] + text_lines(text.skip(n + 1))
    }
}

/// The message of a log record: what follows its header.
pub open spec fn record_message(record: Seq<char>) -> Seq<char> {
    match find(record, ";"@) {
        Some(i) => record.skip(i + 1),
        None => record,
    }
}

/// What follows the first occurrence of `pattern` in `s`.
pub open spec fn after(s: Seq<char>, pattern: Seq<char>) -> Option<Seq<char>> {
    match find(s, pattern) {
        Some(i) => Some(s.skip(i + pattern.len())),
        None => None,
    }
}

/// What stands in front of the first occurrence of `pattern` in `s`.
pub open spec fn before(s: Seq<char>, pattern: Seq<char>) -> Option<Seq<char>> {
    match find(s, pattern) {
        Some(i) => Some(s.take(i)),
        None => None,
    }
}

/// The vermagic that a log record asks for. One that asks for an empty vermagic
/// does not count.
pub open spec fn record_vermagic(record: Seq<char>) -> Option<Seq<char>> {
    match after(record_message(record), "version magic '"@) {
        None => None,
        Some(found) => match after(found, "' should be '"@) {
            None => None,
            Some(wanted) => match before(wanted, "'"@) {
                None => None,
                Some(required) => if required.len() == 0 {
                    None
                } else {
                    Some(required)
                },
            },
        },
    }
}

/// The vermagic that the last of `records` to ask for one asks for.
pub open spec fn last_vermagic(records: Seq<Seq<char>>) -> Option<Seq<char>>
    decreases records.len(),
{
    if records.len() == 0 {
        None
    } else {
        match record_vermagic(records.last()) {
            Some(required) => Some(required),
            None => last_vermagic(records.drop_last()),
        }
    }
}

/// The vermagic that a kernel log asks for.
pub open spec fn required_vermagic(log: Seq<char>) -> Option<Seq<char>> {
    last_vermagic(text_lines(log))
}

/// What stands in the given ranges.
pub open spec fn slices(text: Seq<char>, ranges: Seq<(usize, usize)>) -> Seq<Seq<char>> {
    Seq::new(ranges.len(), |i: int| text.subrange(ranges[i].0 as int, ranges[i].1 as int))
}

/// Finds the lines of a text.
fn line_ranges(text: &Vec<char>) -> (ranges: Vec<(usize, usize)>)
    ensures
        slices(text@, ranges@) == text_lines(text@),
        forall|i: int|
            0 <= i < ranges@.len() ==> (#[trigger] ranges@[i]).0 <= ranges@[i].1 <= text@.len(),
{
    let len: usize = text.len();
    let mut ranges: Vec<(usize, usize)> = Vec::new();
    let mut from: usize = 0;
    assert(text@.skip(0) =~= text@);
    assert(slices(text@, ranges@) + text_lines(text@) =~= text_lines(text@));
    while from < len
        invariant
            len == text@.len(),
            from <= len,
            slices(text@, ranges@) + text_lines(text@.skip(from as int)) == text_lines(text@),
            forall|i: int|
                0 <= i < ranges@.len() ==> (#[trigger] ranges@[i]).0 <= ranges@[i].1 <= len,
        decreases len - from,
    {
        let ghost rest = text@.skip(from as int);
        let ghost done = ranges@;
        let mut end: usize = from;
        while end < len && text[end] != '\n'
            invariant
                len == text@.len(),
                rest == text@.skip(from as int),
                from <= end <= len,
                forall|i: int| 0 <= i < end - from ==> !is_newline()(#[trigger] rest[i]),
            decreases len - end,
        {
            end = end + 1;
        }
        proof {
            lemma_run_len_is(rest, is_newline(), end - from);
            assert(rest.take(end - from) =~= text@.subrange(from as int, end as int));
        }
        if end == len {
            ranges.push((from, end));
            proof {
                assert(rest =~= text@.subrange(from as int, end as int));
                assert(text@.skip(len as int) =~= Seq::empty());
                assert(slices(text@, ranges@) + text_lines(text@.skip(len as int)) =~= slices(
                    text@,
                    done,
                ) + text_lines(rest));
            }
            from = len;
        } else {
            let line_end: usize = if end > from && text[end - 1] == '\r' {
                end - 1
            } else {
                end
            };
            ranges.push((from, line_end));
            proof {
                let line = strip_return(rest.take(end - from));
                assert(line =~= text@.subrange(from as int, line_end as int));
                assert(rest.skip(end - from + 1) =~= text@.skip(end + 1));
                assert(slices(text@, ranges@) + text_lines(text@.skip(end + 1)) =~= slices(
                    text@,
                    done,
                ) + text_lines(rest));
            }
            from = end + 1;
        }
    }
    assert(text@.skip(from as int) =~= Seq::empty());
    assert(slices(text@, ranges@) =~= text_lines(text@));
    ranges
}

/// Finds the end of the first occurrence of `pattern` between `from` and `to`.
fn find_end(text: &Vec<char>, from: usize, to: usize, pattern: &str) -> (result: Option<usize>)
    requires
        from <= to <= text@.len(),
    ensures
        match after(text@.subrange(from as int, to as int), pattern@) {
            None => result is None,
            Some(rest) => result is Some && from <= result->0 <= to && rest == text@.subrange(
                result->0 as int,
                to as int,
            ),
        },
{
    let pattern_chars = chars_of(pattern);
    let ghost window = text@.subrange(from as int, to as int);
    proof {
        lemma_find_bounds(window, pattern@);
    }
    match find_chars(text, from, to, &pattern_chars) {
        None => None,
        Some(i) => {
            let end: usize = from + i + pattern_chars.len();
            assert(window.skip(i + pattern@.len()) =~= text@.subrange(end as int, to as int));
            Some(end)
        },
    }
}

/// Finds the vermagic that the record between `from` and `to` asks for.
fn find_record_vermagic(text: &Vec<char>, from: usize, to: usize) -> (result: Option<
    (usize, usize),
>)
    requires
        from <= to <= text@.len(),
    ensures
        match record_vermagic(text@.subrange(from as int, to as int)) {
            None => result is None,
            Some(required) => result matches Some(range) && range.0 <= range.1 <= text@.len()
                && required == text@.subrange(range.0 as int, range.1 as int),
        },
{
    let ghost record = text@.subrange(from as int, to as int);
    proof {
        reveal_strlit(";");
        lemma_find_bounds(record, ";"@);
    }
    let message: usize = match find_end(text, from, to, ";") {
        None => from,
        Some(end) => end,
    };
    assert(record_message(record) == text@.subrange(message as int, to as int));
    let found: usize = match find_end(text, message, to, "version magic '") {
        None => {
            return None;
        },
        Some(end) => end,
    };
    let wanted: usize = match find_end(text, found, to, "' should be '") {
        None => {
            return None;
        },
        Some(end) => end,
    };
    let quote = chars_of("'");
    let ghost rest = text@.subrange(wanted as int, to as int);
    proof {
        lemma_find_bounds(rest, "'"@);
    }
    match find_chars(text, wanted, to, &quote) {
        None => None,
        Some(width) => {
            assert(rest.take(width as int) =~= text@.subrange(wanted as int, wanted + width));
            if width == 0 {
                return None;
            }
            Some((wanted, wanted + width))
        },
    }
}

/// Reads from the kernel log which vermagic the kernel asks for.
pub fn extract_required_vermagic(kmsg: &str) -> (result: Option<String>)
    ensures
        match required_vermagic(kmsg@) {
            None => result is None,
            Some(required) => result is Some && result->0@ == required,
        },
{
    let text = chars_of(kmsg);
    let ranges = line_ranges(&text);
    let ghost lines = text_lines(kmsg@);
    let mut left: usize = ranges.len();
    assert(lines.take(left as int) =~= lines);
    while left > 0
        invariant
            text@ == kmsg@,
            lines == text_lines(kmsg@),
            slices(text@, ranges@) == lines,
            left <= ranges@.len(),
            forall|i: int|
                0 <= i < ranges@.len() ==> (#[trigger] ranges@[i]).0 <= ranges@[i].1 <= text@.len(),
            required_vermagic(kmsg@) == last_vermagic(lines.take(left as int)),
        decreases left,
    {
        let (from, to) = ranges[left - 1];
        assert(lines.len() == ranges@.len());
        assert(lines[left - 1] == text@.subrange(from as int, to as int));
        assert(lines.take(left as int).last() == lines[left - 1]);
        assert(lines.take(left as int).drop_last() =~= lines.take(left - 1));
        match find_record_vermagic(&text, from, to) {
            Some((start, end)) => {
                return Some(kmsg.substring_char(start, end).to_owned());
            },
            None => {},
        }
        left = left - 1;
    }
    None
}

/// What trying to read from the kernel log gave.
#[derive(Debug)]
pub enum KmsgRead {
    /// Nothing: the log is at its end.
    End,
    /// A record.
    Record(Vec<u8>),
    /// Nothing for now: every record so far has been read.
    WouldBlock,
    /// An error; the text says why.
    Failed(String),
}

/// The records read from the kernel log so far, each with a line end behind it.
#[derive(Debug)]
pub struct KmsgLog {
    pub output: Vec<u8>,
}

/// What becomes of a log after a read.
#[derive(Debug)]
pub enum KmsgStep {
    /// Read on, with what there is now.
    Continue(KmsgLog),
    /// All there is to read has been read: this is the log.
    Done(String),
    /// Nothing of the log can be used; the text says why.
    Failed(String),
}

/// What the program says where the log cannot be read.
pub open spec fn read_error(cause: Seq<char>) -> Seq<char> {
    "Cannot read /dev/kmsg: "@ + cause
}

/// What comes out of reading a log of which `output` has been read already, if the
/// reads end it: its text, or why it cannot be read.
pub open spec fn log_read(output: Seq<u8>, reads: Seq<KmsgRead>) -> Option<
    Result<Seq<char>, Seq<char>>,
>
    decreases reads.len(),
{
    if reads.len() == 0 {
        None
    } else {
        match reads[0] {
            KmsgRead::End => Some(Ok(utf8_lossy(output))),
            KmsgRead::WouldBlock => Some(Ok(utf8_lossy(output))),
            KmsgRead::Failed(cause) => Some(Err(read_error(cause@))),
            KmsgRead::Record(record) => log_read(
                output + record@ + seq![0x0au8],
                reads.drop_first(),
            ),
        }
    }
}

impl KmsgLog {
    /// A log of which nothing has been read.
    pub fn new() -> (log: KmsgLog)
        ensures
            log.output@ == Seq::<u8>::empty(),
    {
        KmsgLog { output: Vec::new() }
    }

    /// Takes in what a read gave.
    pub fn step(self, read: KmsgRead) -> (step: KmsgStep)
        ensures
            match read {
                KmsgRead::Record(record) => step matches KmsgStep::Continue(log) && log.output@
                    == self.output@ + record@ + seq![0x0au8],
                KmsgRead::Failed(cause) => step matches KmsgStep::Failed(text) && text@
                    == read_error(cause@),
                _ => step matches KmsgStep::Done(text) && text@ == utf8_lossy(self.output@) && (
                valid_utf8(self.output@) ==> encode_utf8(text@) == self.output@),
            },
            forall|rest: Seq<KmsgRead>| #[trigger]
                log_read(self.output@, seq![read] + rest) == match step {
                    KmsgStep::Continue(log) => log_read(log.output@, rest),
                    KmsgStep::Done(text) => Some(Ok::<Seq<char>, Seq<char>>(text@)),
                    KmsgStep::Failed(text) => Some(Err::<Seq<char>, Seq<char>>(text@)),
                },
    {
        assert forall|rest: Seq<KmsgRead>| (#[trigger] (seq![read] + rest)).drop_first() == rest by {
            assert((seq![read] + rest).drop_first() =~= rest);
        }
        match read {
            KmsgRead::End => KmsgStep::Done(self.into_text()),
            KmsgRead::WouldBlock => KmsgStep::Done(self.into_text()),
            KmsgRead::Failed(cause) => {
                let mut text = "Cannot read /dev/kmsg: ".to_owned();
                text.append(cause.as_str());
                KmsgStep::Failed(text)
            },
            KmsgRead::Record(record) => {
                let mut output = self.output;
                output.extend_from_slice(record.as_slice());
                assert(output@ =~= self.output@ + record@);
                output.push(0x0a);
                assert(output@ =~= self.output@ + record@ + seq![0x0au8]);
                KmsgStep::Continue(KmsgLog { output })
            },
        }
    }

    /// The records as a text.
    pub fn into_text(self) -> (text: String)
        ensures
            text@ == utf8_lossy(self.output@),
            valid_utf8(self.output@) ==> encode_utf8(text@) == self.output@,
    {
        text_from_utf8_lossy(self.output.as_slice())
    }
}

/// Some records, each with a line end behind it, as bytes.
pub open spec fn gathered(records: Seq<Seq<u8>>) -> Seq<u8>
    decreases records.len(),
{
    if records.len() == 0 {
        Seq::empty()
    } else {
        records[0] + seq![0x0au8] + gathered(records.drop_first())
    }
}

/// A log that is read to its end is the text of all its records. One that fails to be
/// read gives nothing but the error, however much of it has been read before.
pub proof fn law_log_is_read(output: Seq<u8>, reads: Seq<KmsgRead>, last: KmsgRead)
    requires
        forall|i: int| 0 <= i < reads.len() ==> (#[trigger] reads[i]) is Record,
        last !is Record,
    ensures
        log_read(output, reads.push(last)) == match last {
            KmsgRead::Failed(cause) => Some(Err::<Seq<char>, Seq<char>>(read_error(cause@))),
            _ => Some(
                Ok::<Seq<char>, Seq<char>>(
                    utf8_lossy(
                        output + gathered(reads.map_values(|r: KmsgRead| r->Record_0@)),
                    ),
                ),
            ),
        },
    decreases reads.len(),
{
    let all = reads.push(last);
    let records = reads.map_values(|r: KmsgRead| r->Record_0@);
    if reads.len() == 0 {
        assert(all[0] == last);
        assert(output + gathered(records) =~= output);
    } else {
        let rest = reads.drop_first();
        let longer = output + records[0] + seq![0x0au8];
        assert forall|i: int| 0 <= i < rest.len() implies (#[trigger] rest[i]) is Record by {
            assert(rest[i] == reads[i + 1]);
        }
        law_log_is_read(longer, rest, last);
        assert(all[0] == reads[0]);
        assert(all.drop_first() =~= rest.push(last));
        assert(records.drop_first() =~= rest.map_values(|r: KmsgRead| r->Record_0@));
        assert(longer + gathered(records.drop_first()) =~= output + gathered(records));
    }
}

/// What trying a log device gave.
#[derive(Debug)]
pub enum KmsgAttempt {
    /// The device is open and stands at its end.
    AtEnd,
    /// The device is open, but cannot be moved to its end; the text says why.
    SeekFailed(String),
    /// The device cannot be opened; the text says why.
    OpenFailed(String),
}

/// What to do after a log device has been tried.
#[derive(Debug)]
pub enum KmsgSearch {
    /// Read from the device.
    Use,
    /// Try the device with this number.
    Try(usize),
    /// Do without the log; the text says why.
    GiveUp(String),
}

/// The path of the log device with the given number.
pub open spec fn kmsg_path_spec(number: usize) -> Option<Seq<char>> {
    if number == 0 {
        Some("/dev/kmsg"@)
    } else if number == 1 {
        Some("/kmsg"@)
    } else {
        None
    }
}

/// The path of the log device with the given number, in the order in which they
/// are tried.
pub fn kmsg_path(number: usize) -> (path: Option<&'static str>)
    ensures
        match kmsg_path_spec(number) {
            None => path is None,
            Some(text) => path is Some && path->0@ == text,
        },
{
    if number == 0 {
        Some("/dev/kmsg")
    } else if number == 1 {
        Some("/kmsg")
    } else {
        None
    }
}

/// How the search for a log device goes on after device `number` has been tried.
pub open spec fn searched(number: usize, attempt: KmsgAttempt, search: KmsgSearch) -> bool {
    match (attempt, search) {
        (KmsgAttempt::AtEnd, KmsgSearch::Use) => true,
        (KmsgAttempt::SeekFailed(cause), KmsgSearch::GiveUp(text)) => text@ == "Cannot seek "@
            + kmsg_path_spec(number)->0 + " to end: "@ + cause@,
        (KmsgAttempt::OpenFailed(_), KmsgSearch::Try(other)) => number == 0 && other == 1,
        (KmsgAttempt::OpenFailed(cause), KmsgSearch::GiveUp(text)) => number == 1 && text@
            == "Cannot open kernel log device, last tried "@ + kmsg_path_spec(number)->0 + ": "@
            + cause@,
        _ => false,
    }
}

/// Decides how the search for a log device goes on after device `number` has been
/// tried.
pub fn search_kmsg(number: usize, attempt: &KmsgAttempt) -> (search: KmsgSearch)
    requires
        kmsg_path_spec(number) is Some,
    ensures
        match *attempt {
            KmsgAttempt::AtEnd => search is Use,
            KmsgAttempt::SeekFailed(cause) => search matches KmsgSearch::GiveUp(text) && text@
                == "Cannot seek "@ + kmsg_path_spec(number)->0 + " to end: "@ + cause@,
            KmsgAttempt::OpenFailed(cause) => if kmsg_path_spec((number + 1) as usize) is Some {
                search == KmsgSearch::Try((number + 1) as usize)
            } else {
                search matches KmsgSearch::GiveUp(text) && text@
                    == "Cannot open kernel log device, last tried "@ + kmsg_path_spec(number)->0
                    + ": "@ + cause@
            },
        },
        searched(number, *attempt, search),
{
    let path = match kmsg_path(number) {
        None => "",
        Some(path) => path,
    };
    match attempt {
        KmsgAttempt::AtEnd => KmsgSearch::Use,
        KmsgAttempt::SeekFailed(cause) => {
            let mut text = "Cannot seek ".to_owned();
            text.append(path);
            text.append(" to end: ");
            text.append(cause.as_str());
            KmsgSearch::GiveUp(text)
        },
        KmsgAttempt::OpenFailed(cause) => {
            if kmsg_path(number + 1).is_some() {
                KmsgSearch::Try(number + 1)
            } else {
                let mut text = "Cannot open kernel log device, last tried ".to_owned();
                text.append(path);
                text.append(": ");
                text.append(cause.as_str());
                KmsgSearch::GiveUp(text)
            }
        },
    }
}

/// A record in which the kernel names the vermagic it found and the one it wants
/// asks for the latter.
#[verifier::spinoff_prover]
#[verifier::rlimit(40)]
pub proof fn law_mismatch_is_understood(
    header: Seq<char>,
    head: Seq<char>,
    found: Seq<char>,
    wanted: Seq<char>,
    tail: Seq<char>,
)
    requires
        !header.contains(';'),
        occurs_first_at(head + "version magic '"@, "version magic '"@, head.len() as int),
        !found.contains('\''),
        !wanted.contains('\''),
        wanted.len() > 0,
    ensures
        record_vermagic(
            header + ";"@ + (head + "version magic '"@ + (found + "' should be '"@ + (wanted + "'"@
                + tail))),
        ) == Some(wanted),
{
    reveal_strlit(";");
    reveal_strlit("'");
    reveal_strlit("' should be '");
    let end = wanted + "'"@ + tail;
    let middle = found + "' should be '"@ + end;
    let message = head + "version magic '"@ + middle;
    let record = header + ";"@ + message;
    lemma_occurs_behind(header, ";"@);
    lemma_find_in_front(header, ";"@, message);
    assert(record.skip(header.len() as int + 1) =~= message);
    lemma_find_in_front(head, "version magic '"@, middle);
    assert(message.skip(head.len() as int + "version magic '"@.len()) =~= middle);
    lemma_occurs_behind(found, "' should be '"@);
    lemma_find_in_front(found, "' should be '"@, end);
    assert(middle.skip(found.len() as int + "' should be '"@.len()) =~= end);
    lemma_occurs_behind(wanted, "'"@);
    lemma_find_in_front(wanted, "'"@, tail);
    assert(end.take(wanted.len() as int) =~= wanted);
}

proof fn lemma_lines_split(earlier: Seq<char>, later: Seq<char>)
    ensures
        text_lines(earlier + seq!['\n'] + later) == text_lines(earlier + seq!['\n']) + text_lines(
            later,
        ),
    decreases earlier.len(),
{
    let front = earlier + seq!['\n'];
    let whole = front + later;
    lemma_run_len(front, is_newline());
    let n = run_len(front, is_newline()) as int;
    assert(n < front.len()) by {
        if n >= front.len() {
            assert(!is_newline()(front[earlier.len() as int]));
        }
    }
    assert forall|i: int| 0 <= i < n implies !is_newline()(#[trigger] whole[i]) by {
        assert(whole[i] == front[i]);
    }
    lemma_run_len_is(whole, is_newline(), n);
    assert(whole.take(n) =~= front.take(n));
    if n == earlier.len() {
        assert(front.skip(n + 1) =~= Seq::empty());
        assert(text_lines(front.skip(n + 1)) =~= Seq::empty());
        assert(whole.skip(n + 1) =~= later);
        assert(text_lines(whole) =~= text_lines(front) + text_lines(later));
    } else {
        let rest = earlier.skip(n + 1);
        lemma_lines_split(rest, later);
        assert(front.skip(n + 1) =~= rest + seq!['\n']);
        assert(whole.skip(n + 1) =~= rest + seq!['\n'] + later);
        assert(text_lines(whole) =~= text_lines(front) + text_lines(later));
    }
}

proof fn lemma_last_vermagic_split(earlier: Seq<Seq<char>>, later: Seq<Seq<char>>)
    ensures
        last_vermagic(earlier + later) == match last_vermagic(later) {
            Some(required) => Some(required),
            None => last_vermagic(earlier),
        },
    decreases later.len(),
{
    if later.len() > 0 {
        assert((earlier + later).drop_last() =~= earlier + later.drop_last());
        lemma_last_vermagic_split(earlier, later.drop_last());
    } else {
        assert(earlier + later =~= earlier);
    }
}

proof fn lemma_find_push(s: Seq<char>, c: char, pattern: Seq<char>)
    requires
        pattern.len() > 0,
        !pattern.contains(c),
    ensures
        find(s.push(c), pattern) == find(s, pattern),
{
    let longer = s.push(c);
    assert forall|i: int| occurs_at(longer, pattern, i) == occurs_at(s, pattern, i) by {
        if occurs_at(longer, pattern, i) {
            if i + pattern.len() > s.len() {
                assert(longer.subrange(i, i + pattern.len())[pattern.len() - 1] == c);
                assert(pattern[pattern.len() - 1] == c);
            }
            assert(s.subrange(i, i + pattern.len()) =~= longer.subrange(i, i + pattern.len()));
        }
        if occurs_at(s, pattern, i) {
            assert(longer.subrange(i, i + pattern.len()) =~= s.subrange(i, i + pattern.len()));
        }
    }
    assert forall|i: int| occurs_first_at(longer, pattern, i) == occurs_first_at(
        s,
        pattern,
        i,
    ) by {}
    lemma_find_bounds(s, pattern);
    lemma_find_bounds(longer, pattern);
    if find(s, pattern) is Some {
        lemma_find_is(longer, pattern, find(s, pattern)->0);
    } else if find(longer, pattern) is Some {
        assert(occurs_first_at(s, pattern, find(longer, pattern)->0));
    }
}

/// A carriage return at the end of a record does not change what it asks for.
proof fn lemma_record_vermagic_push(record: Seq<char>)
    ensures
        record_vermagic(record.push('\r')) == record_vermagic(record),
{
    reveal_strlit(";");
    reveal_strlit("version magic '");
    reveal_strlit("' should be '");
    reveal_strlit("'");
    let c = '\r';
    lemma_find_push(record, c, ";"@);
    lemma_find_bounds(record, ";"@);
    let message = record_message(record);
    assert(record_message(record.push(c)) =~= message.push(c));
    lemma_find_push(message, c, "version magic '"@);
    lemma_find_bounds(message, "version magic '"@);
    if let Some(found) = after(message, "version magic '"@) {
        assert(after(message.push(c), "version magic '"@)->0 =~= found.push(c));
        lemma_find_push(found, c, "' should be '"@);
        lemma_find_bounds(found, "' should be '"@);
        if let Some(wanted) = after(found, "' should be '"@) {
            assert(after(found.push(c), "' should be '"@)->0 =~= wanted.push(c));
            lemma_find_push(wanted, c, "'"@);
            lemma_find_bounds(wanted, "'"@);
            if let Some(required) = before(wanted, "'"@) {
                assert(before(wanted.push(c), "'"@)->0 =~= required);
            }
        }
    }
}

/// A line end at the end of a log does not change what it asks for.
proof fn lemma_ended_log(log: Seq<char>)
    ensures
        required_vermagic(log + seq!['\n']) == required_vermagic(log),
    decreases log.len(),
{
    let ended = log + seq!['\n'];
    lemma_run_len(log, is_newline());
    let n = run_len(log, is_newline()) as int;
    assert forall|i: int| 0 <= i < n implies !is_newline()(#[trigger] ended[i]) by {
        assert(ended[i] == log[i]);
    }
    assert(is_newline()(ended[n]));
    lemma_run_len_is(ended, is_newline(), n);
    let none = Seq::<Seq<char>>::empty();
    if n >= log.len() {
        assert(ended.take(n) =~= log);
        assert(ended.skip(n + 1) =~= Seq::empty());
        assert(text_lines(ended.skip(n + 1)) =~= none);
        assert(text_lines(ended) =~= seq![strip_return(log)]);
        assert(seq![strip_return(log)].drop_last() =~= none);
        if log.len() == 0 {
            lemma_find_bounds(log, ";"@);
            lemma_find_bounds(log, "version magic '"@);
            reveal_strlit(";");
            reveal_strlit("version magic '");
            assert(record_vermagic(log) is None);
        } else {
            assert(seq![log].drop_last() =~= none);
            if log.last() == '\r' {
                assert(log =~= log.drop_last().push('\r'));
                lemma_record_vermagic_push(log.drop_last());
            }
        }
    } else {
        let rest = log.skip(n + 1);
        lemma_ended_log(rest);
        assert(ended.take(n) =~= log.take(n));
        assert(ended.skip(n + 1) =~= rest + seq!['\n']);
        let first = seq![strip_return(log.take(n))];
        lemma_last_vermagic_split(first, text_lines(rest));
        lemma_last_vermagic_split(first, text_lines(rest + seq!['\n']));
    }
}

/// What the later part of a log asks for goes before what the earlier part does.
pub proof fn law_later_records_decide(earlier: Seq<char>, later: Seq<char>)
    ensures
        required_vermagic(earlier + seq!['\n'] + later) == match required_vermagic(later) {
            Some(required) => Some(required),
            None => required_vermagic(earlier),
        },
{
    lemma_ended_log(earlier);
    lemma_lines_split(earlier, later);
    lemma_last_vermagic_split(text_lines(earlier + seq!['\n']), text_lines(later));
}

/// Some records, each with a line end behind it.
pub open spec fn with_line_ends(records: Seq<Seq<char>>) -> Seq<char>
    decreases records.len(),
{
    if records.len() == 0 {
        Seq::empty()
    } else {
        with_line_ends(records.drop_last()) + records.last() + seq!['\n']
    }
}

/// Records that hold no line end are the lines of the log that they are gathered
/// in.
pub proof fn law_records_are_lines(records: Seq<Seq<char>>)
    requires
        forall|k: int| 0 <= k < records.len() ==> is_without(#[trigger] records[k], '\n'),
    ensures
        text_lines(with_line_ends(records)) == records.map_values(|r: Seq<char>| strip_return(r)),
    decreases records.len(),
{
    let log = with_line_ends(records);
    let lines = records.map_values(|r: Seq<char>| strip_return(r));
    if records.len() == 0 {
        assert(text_lines(log) =~= lines);
    } else {
        let earlier = records.drop_last();
        let last = records.last();
        let line = last + seq!['\n'];
        law_records_are_lines(earlier);
        assert forall|i: int| 0 <= i < last.len() implies !is_newline()(#[trigger] line[i]) by {
            assert(line[i] == last[i]);
        }
        lemma_run_len_is(line, is_newline(), last.len() as int);
        assert(line.take(last.len() as int) =~= last);
        assert(line.skip(last.len() as int + 1) =~= Seq::empty());
        assert(text_lines(line.skip(last.len() as int + 1)) =~= Seq::empty());
        assert(text_lines(line) =~= seq![strip_return(last)]);
        if earlier.len() == 0 {
            assert(log =~= line);
        } else {
            let front = with_line_ends(earlier).drop_last();
            assert(with_line_ends(earlier) =~= front + seq!['\n']);
            lemma_lines_split(front, line);
            assert(log =~= front + seq!['\n'] + line);
        }
        assert(text_lines(log) =~= text_lines(with_line_ends(earlier)) + seq![strip_return(last)]);
        assert(lines =~= earlier.map_values(|r: Seq<char>| strip_return(r)) + seq![
            strip_return(last),
        ]);
    }
}

/// Whether `c` stands nowhere in `s`.
pub open spec fn is_without(s: Seq<char>, c: char) -> bool {
    forall|i: int| 0 <= i < s.len() ==> #[trigger] s[i] != c
}

proof fn lemma_lines_plain(text: Seq<char>)
    ensures
        forall|k: int|
            0 <= k < text_lines(text).len() ==> is_without(#[trigger] text_lines(text)[k], '\n'),
    decreases text.len(),
{
    lemma_run_len(text, is_newline());
    let n = run_len(text, is_newline()) as int;
    if text.len() > 0 {
        if n >= text.len() {
            assert forall|i: int| 0 <= i < text.len() implies #[trigger] text[i] != '\n' by {
                assert(!is_newline()(text[i]));
            }
        } else {
            lemma_lines_plain(text.skip(n + 1));
            let line = strip_return(text.take(n));
            assert forall|i: int| 0 <= i < line.len() implies #[trigger] line[i] != '\n' by {
                assert(!is_newline()(text[i]));
            }
            let rest = text_lines(text.skip(n + 1));
            assert forall|k: int| 0 <= k < text_lines(text).len() implies is_without(
                #[trigger] text_lines(text)[k],
                '\n',
            ) by {
                if k > 0 {
                    assert(text_lines(text)[k] == rest[k - 1]);
                }
            }
        }
    }
}

proof fn lemma_record_vermagic_plain(record: Seq<char>)
    requires
        is_without(record, '\n'),
    ensures
        record_vermagic(record) matches Some(required) ==> required.len() > 0 && is_without(
            required,
            '\n',
        ) && is_without(required, '\''),
{
    if record_vermagic(record) is Some {
        reveal_strlit(";");
        lemma_find_bounds(record, ";"@);
        let message = record_message(record);
        assert(is_without(message, '\n'));
        lemma_find_bounds(message, "version magic '"@);
        let found = after(message, "version magic '"@)->0;
        assert(is_without(found, '\n'));
        lemma_find_bounds(found, "' should be '"@);
        let wanted = after(found, "' should be '"@)->0;
        assert(is_without(wanted, '\n'));
        lemma_find_bounds(wanted, "'"@);
        let required = before(wanted, "'"@)->0;
        assert forall|i: int| 0 <= i < required.len() implies #[trigger] required[i] != '\'' by {
            reveal_strlit("'");
            if required[i] == '\'' {
                assert(wanted.subrange(i, i + 1) =~= "'"@);
                assert(occurs_at(wanted, "'"@, i));
            }
        }
    }
}

proof fn lemma_last_vermagic_plain(records: Seq<Seq<char>>)
    requires
        forall|k: int| 0 <= k < records.len() ==> is_without(#[trigger] records[k], '\n'),
    ensures
        last_vermagic(records) matches Some(required) ==> required.len() > 0 && is_without(
            required,
            '\n',
        ) && is_without(required, '\''),
    decreases records.len(),
{
    if records.len() > 0 {
        lemma_record_vermagic_plain(records.last());
        lemma_last_vermagic_plain(records.drop_last());
    }
}

/// A vermagic read from a log is not empty and holds neither a quote nor a line
/// end.
pub proof fn law_required_vermagic_is_plain(log: Seq<char>)
    ensures
        required_vermagic(log) matches Some(required) ==> required.len() > 0 && is_without(
            required,
            '\n',
        ) && is_without(required, '\''),
{
    lemma_lines_plain(log);
    lemma_last_vermagic_plain(text_lines(log));
}

/// An empty log has no lines; what holds no line end is one line, whole; and a line end
/// ends a line, a carriage return in front of it included, and begins the next one.
pub proof fn law_lines_are_ended(line: Seq<char>, rest: Seq<char>)
    requires
        !line.contains('\n'),
    ensures
        text_lines(Seq::empty()) == Seq::<Seq<char>>::empty(),
        line.len() > 0 ==> text_lines(line) == seq![line],
        text_lines(line.push('\n') + rest) == seq![
            if line.len() > 0 && line.last() == '\r' {
                line.drop_last()
            } else {
                line
            },
        ] + text_lines(rest),
{
    let whole = line.push('\n') + rest;
    let n = line.len() as int;
    assert forall|i: int| 0 <= i < n implies !is_newline()(#[trigger] line[i]) by {
        assert(line.contains(line[i]));
    }
    assert forall|i: int| 0 <= i < n implies !is_newline()(#[trigger] whole[i]) by {
        assert(whole[i] == line[i]);
    }
    lemma_run_len_is(line, is_newline(), n);
    lemma_run_len_is(whole, is_newline(), n);
    assert(whole.take(n) =~= line);
    assert(whole.skip(n + 1) =~= rest);
}

/// What a log asks for is, unchanged, what the last of its lines that asks for anything
/// asks for; and it asks for nothing if and only if none of its lines does.
pub proof fn law_last_asking_line_decides(log: Seq<char>)
    ensures
        match required_vermagic(log) {
            Some(required) => exists|k: int|
                0 <= k < text_lines(log).len() && #[trigger] record_vermagic(text_lines(log)[k])
                    == Some(required) && forall|j: int|
                    k < j < text_lines(log).len() ==> #[trigger] record_vermagic(text_lines(log)[j])
                        is None,
            None => forall|j: int|
                0 <= j < text_lines(log).len() ==> #[trigger] record_vermagic(text_lines(log)[j])
                    is None,
        },
{
    lemma_last_asking_record(text_lines(log));
}

proof fn lemma_last_asking_record(records: Seq<Seq<char>>)
    ensures
        match last_vermagic(records) {
            Some(required) => exists|k: int|
                0 <= k < records.len() && #[trigger] record_vermagic(records[k]) == Some(required)
                    && forall|j: int|
                    k < j < records.len() ==> #[trigger] record_vermagic(records[j]) is None,
            None => forall|j: int|
                0 <= j < records.len() ==> #[trigger] record_vermagic(records[j]) is None,
        },
    decreases records.len(),
{
    if records.len() > 0 {
        let last = records.len() - 1;
        assert(records.last() == records[last]);
        if record_vermagic(records.last()) is None {
            let front = records.drop_last();
            lemma_last_asking_record(front);
            match last_vermagic(front) {
                Some(required) => {
                    let k = choose|k: int|
                        0 <= k < front.len() && #[trigger] record_vermagic(front[k]) == Some(
                            required,
                        ) && forall|j: int|
                            k < j < front.len() ==> #[trigger] record_vermagic(front[j]) is None;
                    assert(record_vermagic(records[k]) == Some(required));
                    assert forall|j: int| k < j < records.len() implies #[trigger] record_vermagic(
                        records[j],
                    ) is None by {
                        if j < last {
                            assert(record_vermagic(front[j]) is None);
                        }
                    }
                },
                None => {
                    assert forall|j: int| 0 <= j < records.len() implies #[trigger] record_vermagic(
                        records[j],
                    ) is None by {
                        if j < last {
                            assert(record_vermagic(front[j]) is None);
                        }
                    }
                },
            }
        } else {
            assert(record_vermagic(records[last]) == last_vermagic(records));
        }
    }
}

/// A log of one line asks for what that line asks for.
pub proof fn law_one_line_decides(line: Seq<char>)
    requires
        !line.contains('\n'),
    ensures
        required_vermagic(line) == record_vermagic(line),
{
    law_lines_are_ended(line, Seq::empty());
    let none = Seq::<Seq<char>>::empty();
    if line.len() > 0 {
        assert(seq![line].drop_last() =~= none);
        assert(last_vermagic(none) is None);
    } else {
        assert(line =~= Seq::empty());
        lemma_nothing_asks_for_nothing();
    }
}

proof fn lemma_nothing_asks_for_nothing()
    ensures
        record_vermagic(Seq::empty()) is None,
{
    let nothing = Seq::<char>::empty();
    reveal_strlit(";");
    reveal_strlit("version magic '");
    lemma_find_bounds(nothing, ";"@);
    lemma_find_bounds(nothing, "version magic '"@);
}

/// The message of a record is what follows its first semicolon, or all of it where it
/// holds none.
#[verifier::spinoff_prover]
#[verifier::rlimit(40)]
pub proof fn law_message_follows_header(header: Seq<char>, message: Seq<char>)
    requires
        !header.contains(';'),
    ensures
        record_message(header.push(';') + message) == message,
        record_message(header) == header,
{
    reveal_strlit(";");
    assert(";"@ =~= seq![';']);
    lemma_occurs_behind(header, ";"@);
    lemma_find_in_front(header, ";"@, message);
    let record = header.push(';') + message;
    assert(record =~= header + ";"@ + message);
    assert(record.skip(header.len() as int + 1) =~= message);
    lemma_find_bounds(header, ";"@);
    if let Some(i) = find(header, ";"@) {
        assert(header.subrange(i, i + 1)[0] == header[i]);
        assert(header.contains(';'));
    }
}

/// Whether a message says, in this order and with nothing in front that could be taken for
/// either, that the version magic is `found` and that it should be `wanted`.
pub open spec fn says(
    message: Seq<char>,
    head: Seq<char>,
    found: Seq<char>,
    wanted: Seq<char>,
    tail: Seq<char>,
) -> bool {
    &&& message == head + "version magic '"@ + (found + "' should be '"@ + (wanted + "'"@ + tail))
    &&& forall|j: int|
        0 <= j < head.len() ==> #[trigger] (head + "version magic '"@).subrange(j, j + 15)
            != "version magic '"@
    &&& forall|j: int|
        0 <= j < found.len() ==> #[trigger] (found + "' should be '"@).subrange(j, j + 13)
            != "' should be '"@
    &&& !wanted.contains('\'')
    &&& wanted.len() > 0
}

/// A record asks for a vermagic if and only if its message says that another one was
/// found and that this one, up to the next quote, is wanted; and it asks for just that.
pub proof fn law_record_asks_for_what_it_says(record: Seq<char>, wanted: Seq<char>)
    ensures
        record_vermagic(record) == Some(wanted) <==> exists|
            head: Seq<char>,
            found: Seq<char>,
            tail: Seq<char>,
        |
            #[trigger] says(record_message(record), head, found, wanted, tail),
{
    let message = record_message(record);
    if exists|head: Seq<char>, found: Seq<char>, tail: Seq<char>|
        #[trigger] says(message, head, found, wanted, tail) {
        let (head, found, tail) = choose|head: Seq<char>, found: Seq<char>, tail: Seq<char>|
            #[trigger] says(message, head, found, wanted, tail);
        lemma_said(record, head, found, wanted, tail);
    }
    if record_vermagic(record) == Some(wanted) {
        lemma_asked(record, wanted);
    }
}

#[verifier::spinoff_prover]
#[verifier::rlimit(40)]
proof fn lemma_said(
    record: Seq<char>,
    head: Seq<char>,
    found: Seq<char>,
    wanted: Seq<char>,
    tail: Seq<char>,
)
    requires
        says(record_message(record), head, found, wanted, tail),
    ensures
        record_vermagic(record) == Some(wanted),
{
    reveal_strlit("version magic '");
    reveal_strlit("' should be '");
    reveal_strlit("'");
    let message = record_message(record);
    let end = wanted + "'"@ + tail;
    let middle = found + "' should be '"@ + end;
    lemma_first_in_front(head, "version magic '"@);
    lemma_find_in_front(head, "version magic '"@, middle);
    assert(message.skip(head.len() as int + "version magic '"@.len()) =~= middle);
    lemma_first_in_front(found, "' should be '"@);
    lemma_find_in_front(found, "' should be '"@, end);
    assert(middle.skip(found.len() as int + "' should be '"@.len()) =~= end);
    lemma_occurs_behind(wanted, "'"@);
    lemma_find_in_front(wanted, "'"@, tail);
    assert(end.take(wanted.len() as int) =~= wanted);
}

proof fn lemma_first_in_front(head: Seq<char>, pattern: Seq<char>)
    requires
        forall|j: int|
            0 <= j < head.len() ==> #[trigger] (head + pattern).subrange(j, j + pattern.len())
                != pattern,
    ensures
        occurs_first_at(head + pattern, pattern, head.len() as int),
{
    let n = head.len() as int;
    assert((head + pattern).subrange(n, n + pattern.len()) =~= pattern);
    assert forall|j: int| 0 <= j < n implies !occurs_at(head + pattern, pattern, j) by {
        assert((head + pattern).subrange(j, j + pattern.len()) != pattern);
    }
}

proof fn lemma_front_of_first(s: Seq<char>, pattern: Seq<char>, i: int)
    requires
        find(s, pattern) == Some(i),
    ensures
        0 <= i,
        s == s.take(i) + pattern + s.skip(i + pattern.len()),
        forall|j: int|
            0 <= j < i ==> #[trigger] (s.take(i) + pattern).subrange(j, j + pattern.len())
                != pattern,
{
    lemma_find_bounds(s, pattern);
    let front = s.take(i) + pattern;
    assert(s.subrange(i, i + pattern.len()) == pattern);
    assert forall|k: int| 0 <= k < pattern.len() implies s[i + k] == #[trigger] pattern[k] by {
        assert(s.subrange(i, i + pattern.len())[k] == s[i + k]);
    }
    assert(s =~= front + s.skip(i + pattern.len()));
    assert forall|j: int| 0 <= j < i implies #[trigger] front.subrange(j, j + pattern.len())
        != pattern by {
        assert(!occurs_at(s, pattern, j));
        assert(front.subrange(j, j + pattern.len()) =~= s.subrange(j, j + pattern.len()));
    }
}

#[verifier::spinoff_prover]
#[verifier::rlimit(40)]
proof fn lemma_asked(record: Seq<char>, wanted: Seq<char>)
    requires
        record_vermagic(record) == Some(wanted),
    ensures
        exists|head: Seq<char>, found: Seq<char>, tail: Seq<char>|
            #[trigger] says(record_message(record), head, found, wanted, tail),
{
    reveal_strlit("version magic '");
    reveal_strlit("' should be '");
    reveal_strlit("'");
    let message = record_message(record);
    let i = find(message, "version magic '"@)->0;
    lemma_front_of_first(message, "version magic '"@, i);
    let head = message.take(i);
    let middle = message.skip(i + 15);
    let j = find(middle, "' should be '"@)->0;
    lemma_front_of_first(middle, "' should be '"@, j);
    let found = middle.take(j);
    let end = middle.skip(j + 13);
    let k = find(end, "'"@)->0;
    lemma_front_of_first(end, "'"@, k);
    let tail = end.skip(k + 1);
    lemma_find_bounds(end, "'"@);
    lemma_find_bounds(middle, "' should be '"@);
    lemma_find_bounds(message, "version magic '"@);
    assert(wanted == end.take(k));
    assert(!wanted.contains('\'')) by {
        if wanted.contains('\'') {
            let m = choose|m: int| 0 <= m < wanted.len() && wanted[m] == '\'';
            assert(end.subrange(m, m + 1) =~= "'"@);
            assert(occurs_at(end, "'"@, m));
        }
    }
    assert(head.len() == i && found.len() == j);
    assert(says(message, head, found, wanted, tail));
}

/// A log in which one line says which vermagic was found and which is wanted, and in which
/// nothing behind that line asks for any, asks for just what that line says.
pub proof fn law_log_asks_for_what_it_says(
    earlier: Seq<char>,
    line: Seq<char>,
    later: Seq<char>,
    head: Seq<char>,
    found: Seq<char>,
    wanted: Seq<char>,
    tail: Seq<char>,
)
    requires
        !line.contains('\n'),
        says(record_message(line), head, found, wanted, tail),
        required_vermagic(later) is None,
    ensures
        required_vermagic(line) == Some(wanted),
        required_vermagic(line.push('\n') + later) == Some(wanted),
        required_vermagic(earlier.push('\n') + line) == Some(wanted),
        required_vermagic(earlier.push('\n') + (line.push('\n') + later)) == Some(wanted),
{
    lemma_said(line, head, found, wanted, tail);
    law_one_line_decides(line);
    let behind = line.push('\n') + later;
    law_later_records_decide(line, later);
    assert(behind =~= line + seq!['\n'] + later);
    law_later_records_decide(earlier, line);
    assert(earlier.push('\n') + line =~= earlier + seq!['\n'] + line);
    law_later_records_decide(earlier, behind);
    assert(earlier.push('\n') + behind =~= earlier + seq!['\n'] + behind);
}

/// The records of a log are gathered one behind the other, each as it is and with one line
/// end behind it; and a failure to read them is told with its cause.
pub proof fn law_records_are_gathered(records: Seq<Seq<u8>>, cause: Seq<char>)
    ensures
        gathered(records) == records.map_values(|r: Seq<u8>| r.push(0x0a)).flatten(),
        read_error(cause) == "Cannot read /dev/kmsg: "@ + cause,
    decreases records.len(),
{
    let ended = records.map_values(|r: Seq<u8>| r.push(0x0a));
    if records.len() > 0 {
        law_records_are_gathered(records.drop_first(), cause);
        assert(ended.drop_first() =~= records.drop_first().map_values(
            |r: Seq<u8>| r.push(0x0a),
        ));
        assert(gathered(records) =~= ended.first() + ended.drop_first().flatten());
    } else {
        assert(gathered(records) =~= ended.flatten());
    }
}

/// There are two log devices to try, and the first one goes first.
pub proof fn law_two_devices(number: usize)
    ensures
        kmsg_path_spec(number) is Some <==> number < 2,
        kmsg_path_spec(0) == Some("/dev/kmsg"@),
        kmsg_path_spec(1) == Some("/kmsg"@),
{
}

/// What would be read behind the end of a log, or behind a failure, does not count; and a
/// log of which nothing but records has been read is not at its end.
pub proof fn law_reading_ends(
    output: Seq<u8>,
    reads: Seq<KmsgRead>,
    last: KmsgRead,
    rest: Seq<KmsgRead>,
)
    requires
        forall|i: int| 0 <= i < reads.len() ==> (#[trigger] reads[i]) is Record,
        last !is Record,
    ensures
        log_read(output, reads) is None,
        log_read(output, reads.push(last) + rest) == log_read(output, reads.push(last)),
    decreases reads.len(),
{
    let all = reads.push(last);
    let more = all + rest;
    assert(more[0] == all[0]);
    if reads.len() > 0 {
        let behind = reads.drop_first();
        assert forall|i: int| 0 <= i < behind.len() implies (#[trigger] behind[i]) is Record by {
            assert(behind[i] == reads[i + 1]);
        }
        assert(all[0] == reads[0]);
        let longer = output + reads[0]->Record_0@ + seq![0x0au8];
        law_reading_ends(longer, behind, last, rest);
        assert(all.drop_first() =~= behind.push(last));
        assert(more.drop_first() =~= behind.push(last) + rest);
    }
}

/// A device that stands at its end is used. One that cannot be opened is followed by the
/// other, if it is the first. Otherwise the search is given up, and the device and the
/// cause are told in full.
pub proof fn law_search_goes_on(number: usize, attempt: KmsgAttempt, search: KmsgSearch)
    requires
        number < 2,
        searched(number, attempt, search),
    ensures
        search is Use <==> attempt is AtEnd,
        search is Try <==> attempt is OpenFailed && number == 0,
        search matches KmsgSearch::Try(other) ==> other == 1,
        search matches KmsgSearch::GiveUp(text) ==> {
            let path = if number == 0 {
                "/dev/kmsg"@
            } else {
                "/kmsg"@
            };
            match attempt {
                KmsgAttempt::AtEnd => false,
                KmsgAttempt::SeekFailed(cause) => text@ == "Cannot seek "@ + path + " to end: "@
                    + cause@,
                KmsgAttempt::OpenFailed(cause) => text@
                    == "Cannot open kernel log device, last tried "@ + path + ": "@ + cause@,
            }
        },
{
}

} // verus!
