//! The line parser: the fields in their fixed order, and the record they make.

use crate::bytes::{all_in, lemma_run_len, run_len, ByteClass};
use crate::fields::{
    is_decimal, parse_cpu, parse_float_value, parse_separator, parse_task_name, parse_tid_pid,
    skip_run, spec_cpu, spec_float_value, spec_separator, spec_task_name, spec_tid_pid, ParseError,
};
use crate::text::{lemma_boundary_after_ascii, lemma_boundary_at_ascii, substring, Span};
use vstd::prelude::*;
use vstd::string::StringSliceAdditionalSpecFns;
use vstd::utf8::{encode_utf8_valid_utf8, is_char_boundary, valid_utf8};

verus! {

/// What a record says, as plain values. A numeric field is the text of its
/// decimal number, so that no digit of the source is lost.
pub struct Record {
    pub time: Seq<u8>,
    pub cpu: u16,
    pub task_name: Seq<u8>,
    pub tid: u64,
    pub pid: Option<u64>,
    pub wait_time_ms: Seq<u8>,
    pub sch_delay_ms: Seq<u8>,
    pub run_time_ms: Seq<u8>,
}

impl Record {
    /// What holds of every record that comes out of a line.
    pub open spec fn wf(self) -> bool {
        &&& is_decimal(self.time)
        &&& self.task_name.len() > 0
        &&& all_in(self.task_name, ByteClass::Name)
        &&& is_decimal(self.wait_time_ms)
        &&& is_decimal(self.sch_delay_ms)
        &&& is_decimal(self.run_time_ms)
    }
}

/// One scheduling event. The texts borrow from the line; a numeric field is
/// the decimal number as the line writes it.
#[derive(Clone, Copy, Debug, PartialEq, Eq)]
pub struct ParsedData<'a> {
    /// Timestamp in seconds.
    pub time: &'a str,
    pub cpu: u16,
    pub task_name: &'a str,
    pub tid: u64,
    /// Absent where the line gives the thread id alone.
    pub pid: Option<u64>,
    /// Milliseconds; so are the next two.
    pub wait_time_ms: &'a str,
    pub sch_delay_ms: &'a str,
    pub run_time_ms: &'a str,
}

impl<'a> View for ParsedData<'a> {
    type V = Record;

    open spec fn view(&self) -> Record {
        Record {
            time: self.time.spec_bytes(),
            cpu: self.cpu,
            task_name: self.task_name.spec_bytes(),
            tid: self.tid,
            pid: self.pid,
            wait_time_ms: self.wait_time_ms.spec_bytes(),
            sch_delay_ms: self.sch_delay_ms.spec_bytes(),
            run_time_ms: self.run_time_ms.spec_bytes(),
        }
    }
}

/// A field in a line. A line that ends where the field has to start has
/// ended early; a field that starts is read as the field grammar says.
pub open spec fn in_line<T>(r: Seq<u8>, field: Result<T, ParseError>) -> Result<T, ParseError> {
    if r.len() == 0 {
        Err(ParseError::UnexpectedEndOfInput)
    } else {
        field
    }
}

/// A numeric field in a line.
pub open spec fn spec_number(r: Seq<u8>) -> Result<(Seq<u8>, Seq<u8>), ParseError> {
    in_line(r, spec_float_value(r))
}

/// The three durations behind the identity field: optional whitespace, then
/// wait time, scheduling delay and run time with separators between them.
pub open spec fn spec_durations(r: Seq<u8>) -> Result<(Seq<u8>, Seq<u8>, Seq<u8>), ParseError> {
    match spec_number(r.skip(run_len(r, ByteClass::Space) as int)) {
        Err(e) => Err(e),
        Ok((wait, r1)) => match spec_separator(r1) {
            Err(e) => Err(e),
            Ok(r2) => match spec_number(r2) {
                Err(e) => Err(e),
                Ok((delay, r3)) => match spec_separator(r3) {
                    Err(e) => Err(e),
                    Ok(r4) => match spec_number(r4) {
                        Err(e) => Err(e),
                        Ok((run, _)) => Ok((wait, delay, run)),
                    },
                },
            },
        },
    }
}

/// The record that the line `s` describes, or the first thing wrong with it:
/// the error of the field or separator that fails, and
/// `UnexpectedEndOfInput` where the line ends in front of a field. What
/// follows the last duration is not looked at.
pub open spec fn spec_line(s: Seq<u8>) -> Result<Record, ParseError> {
    match spec_number(s.skip(run_len(s, ByteClass::Blank) as int)) {
        Err(e) => Err(e),
        Ok((time, r1)) => match spec_separator(r1) {
            Err(e) => Err(e),
            Ok(r2) => match in_line(r2, spec_cpu(r2)) {
                Err(e) => Err(e),
                Ok((cpu, r3)) => match spec_separator(r3) {
                    Err(e) => Err(e),
                    Ok(r4) => match in_line(r4, spec_task_name(r4)) {
                        Err(e) => Err(e),
                        Ok((task_name, r5)) => match in_line(r5, spec_tid_pid(r5)) {
                            Err(e) => Err(e),
                            Ok(((tid, pid), r6)) => match spec_durations(r6) {
                                Err(e) => Err(e),
                                Ok((wait_time_ms, sch_delay_ms, run_time_ms)) => Ok(
                                    Record {
                                        time,
                                        cpu,
                                        task_name,
                                        tid,
                                        pid,
                                        wait_time_ms,
                                        sch_delay_ms,
                                        run_time_ms,
                                    },
                                ),
                            },
                        },
                    },
                },
            },
        },
    }
}

/// Every record of a line is well formed.
pub proof fn lemma_line_record_wf(s: Seq<u8>)
    ensures
        match spec_line(s) {
            Ok(record) => record.wf(),
            Err(_) => true,
        },
{
    if let Ok(record) = spec_line(s) {
        let r1 = spec_number(s.skip(run_len(s, ByteClass::Blank) as int))->Ok_0.1;
        let r2 = spec_separator(r1)->Ok_0;
        let r3 = spec_cpu(r2)->Ok_0.1;
        let r4 = spec_separator(r3)->Ok_0;
        lemma_run_len(r4, ByteClass::Name);
    }
}

/// A decimal number starts and ends where characters do.
pub proof fn lemma_decimal_span(bytes: Seq<u8>, span: Span)
    requires
        valid_utf8(bytes),
        span.within(bytes),
        is_decimal(span.of(bytes)),
    ensures
        span.start < span.end,
        is_char_boundary(bytes, span.start as int),
        is_char_boundary(bytes, span.end as int),
{
    let t = span.of(bytes);
    assert(ByteClass::Numeric.has(t[0]));
    assert(ByteClass::Numeric.has(t[t.len() - 1]));
    lemma_boundary_at_ascii(bytes, span.start as int);
    lemma_boundary_after_ascii(bytes, span.end - 1);
}

/// Reads a numeric field of a line at `pos` and returns where it ends.
pub fn parse_number(s: &[u8], pos: usize) -> (r: Result<usize, ParseError>)
    requires
        pos <= s.len(),
    ensures
        match r {
            Ok(end) => pos < end <= s.len() && spec_number(s@.skip(pos as int)) == Ok::<
                (Seq<u8>, Seq<u8>),
                ParseError,
            >((s@.subrange(pos as int, end as int), s@.skip(end as int))),
            Err(e) => spec_number(s@.skip(pos as int)) == Err::<(Seq<u8>, Seq<u8>), ParseError>(e),
        },
{
    if pos >= s.len() {
        Err(ParseError::UnexpectedEndOfInput)
    } else {
        parse_float_value(s, pos)
    }
}

/// Reads the three durations at `pos` and returns where each stands.
pub fn parse_durations(s: &[u8], pos: usize) -> (r: Result<(Span, Span, Span), ParseError>)
    requires
        pos <= s.len(),
    ensures
        match r {
            Ok((wait, delay, run)) => {
                &&& spec_durations(s@.skip(pos as int)) == Ok::<
                    (Seq<u8>, Seq<u8>, Seq<u8>),
                    ParseError,
                >((wait.of(s@), delay.of(s@), run.of(s@)))
                &&& wait.within(s@) && is_decimal(wait.of(s@))
                &&& delay.within(s@) && is_decimal(delay.of(s@))
                &&& run.within(s@) && is_decimal(run.of(s@))
                &&& pos <= wait.start && wait.end < delay.start && delay.end < run.start
            },
            Err(e) => spec_durations(s@.skip(pos as int)) == Err::<
                (Seq<u8>, Seq<u8>, Seq<u8>),
                ParseError,
            >(e),
        },
{
    let wait_start = skip_run(s, pos, ByteClass::Space);
    let wait_end = match parse_number(s, wait_start) {
        Ok(end) => end,
        Err(e) => {
            return Err(e);
        },
    };
    let delay_start = match parse_separator(s, wait_end) {
        Ok(end) => end,
        Err(e) => {
            return Err(e);
        },
    };
    let delay_end = match parse_number(s, delay_start) {
        Ok(end) => end,
        Err(e) => {
            return Err(e);
        },
    };
    let run_start = match parse_separator(s, delay_end) {
        Ok(end) => end,
        Err(e) => {
            return Err(e);
        },
    };
    match parse_number(s, run_start) {
        Ok(run_end) => Ok(
            (
                Span { start: wait_start, end: wait_end },
                Span { start: delay_start, end: delay_end },
                Span { start: run_start, end: run_end },
            ),
        ),
        Err(e) => Err(e),
    }
}

/// Reads one line: leading spaces, time, CPU, task name, identity and the
/// three durations. The line is a record as a whole or not at all; a line
/// terminator, or anything else behind the last duration, is not looked at.
pub fn parse_line<'a>(s: &'a str) -> (r: Result<ParsedData<'a>, ParseError>)
    ensures
        match r {
            Ok(data) => spec_line(s.spec_bytes()) == Ok::<Record, ParseError>(data@) && data@.wf(),
            Err(e) => spec_line(s.spec_bytes()) == Err::<Record, ParseError>(e),
        },
{
    let bytes = s.as_bytes();
    proof {
        lemma_line_record_wf(bytes@);
        encode_utf8_valid_utf8(s@);
        assert(bytes@.skip(0) =~= bytes@);
    }
    let time_start = skip_run(bytes, 0, ByteClass::Blank);
    let time_end = match parse_number(bytes, time_start) {
        Ok(end) => end,
        Err(e) => {
            return Err(e);
        },
    };
    let cpu_start = match parse_separator(bytes, time_end) {
        Ok(end) => end,
        Err(e) => {
            return Err(e);
        },
    };
    if cpu_start >= bytes.len() {
        return Err(ParseError::UnexpectedEndOfInput);
    }
    let (cpu, cpu_end) = match parse_cpu(bytes, cpu_start) {
        Ok(found) => found,
        Err(e) => {
            return Err(e);
        },
    };
    let name_start = match parse_separator(bytes, cpu_end) {
        Ok(end) => end,
        Err(e) => {
            return Err(e);
        },
    };
    let name_end = match parse_task_name(bytes, name_start) {
        Ok(end) => end,
        Err(e) => {
            return Err(e);
        },
    };
    if name_end >= bytes.len() {
        return Err(ParseError::UnexpectedEndOfInput);
    }
    let ((tid, pid), identity_end) = match parse_tid_pid(bytes, name_end) {
        Ok(found) => found,
        Err(e) => {
            return Err(e);
        },
    };
    let (wait, delay, run) = match parse_durations(bytes, identity_end) {
        Ok(found) => found,
        Err(e) => {
            return Err(e);
        },
    };
    proof {
        lemma_decimal_span(bytes@, Span { start: time_start, end: time_end });
        lemma_decimal_span(bytes@, wait);
        lemma_decimal_span(bytes@, delay);
        lemma_decimal_span(bytes@, run);
        let separator = bytes@.subrange(cpu_end as int, name_start as int);
        assert(ByteClass::Space.has(separator[separator.len() - 1]));
        lemma_boundary_after_ascii(bytes@, name_start - 1);
        lemma_boundary_at_ascii(bytes@, name_end as int);
    }
    Ok(
        ParsedData {
            time: substring(s, time_start, time_end),
            cpu,
            task_name: substring(s, name_start, name_end),
            tid,
            pid,
            wait_time_ms: substring(s, wait.start, wait.end),
            sch_delay_ms: substring(s, delay.start, delay.end),
            run_time_ms: substring(s, run.start, run.end),
        },
    )
}

impl<'a> ParsedData<'a> {
    /// Reads one line of text, with or without its line terminator.
    pub fn from_str(s: &'a str) -> (r: Result<ParsedData<'a>, ParseError>)
        ensures
            match r {
                Ok(data) => spec_line(s.spec_bytes()) == Ok::<Record, ParseError>(data@)
                    && data@.wf(),
                Err(e) => spec_line(s.spec_bytes()) == Err::<Record, ParseError>(e),
            },
    {
        parse_line(s)
    }
}

} // verus!
