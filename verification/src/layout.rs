//! Which lines the grammar accepts: a line laid out as the format prescribes
//! is read as the record of its fields, whatever padding stands between them,
//! and no other line is read as a record.

use crate::bytes::{
    all_in, digits_value, lemma_run_len, lemma_run_of_concat, run_len, stops, ByteClass,
    CLOSE_BRACKET, OPEN_BRACKET, SLASH, ZERO,
};
use crate::fields::{
    is_cpu_field, is_decimal, is_uint_text, spec_cpu, spec_float_value, spec_separator,
    spec_task_name, spec_tid_and_pid, spec_tid_pid, spec_uint, ParseError,
};
use crate::line::{spec_durations, spec_line, spec_number, Record};
use vstd::prelude::*;

verus! {

/// The texts of a line's fields.
pub struct Fields {
    pub time: Seq<u8>,
    /// The four digits of the CPU index.
    pub cpu: Seq<u8>,
    pub task_name: Seq<u8>,
    /// The digits of the thread id.
    pub tid: Seq<u8>,
    /// The digits of the process id, where the line gives one.
    pub pid: Option<Seq<u8>>,
    pub wait_time_ms: Seq<u8>,
    pub sch_delay_ms: Seq<u8>,
    pub run_time_ms: Seq<u8>,
}

/// The whitespace of a line, and what follows its last field.
pub struct Padding {
    /// Spaces in front of the time.
    pub lead: Seq<u8>,
    pub after_time: Seq<u8>,
    pub after_cpu: Seq<u8>,
    /// Between the identity field and the wait time; may be empty.
    pub before_durations: Seq<u8>,
    pub after_wait: Seq<u8>,
    pub after_delay: Seq<u8>,
    /// What follows the run time, such as a line terminator.
    pub trailer: Seq<u8>,
}

impl Fields {
    /// The fields are ones that the format can carry: decimal numbers, four
    /// CPU digits, a task name without `[` that starts with no whitespace,
    /// and ids that fit 64 bits.
    pub open spec fn wf(self) -> bool {
        &&& is_decimal(self.time)
        &&& self.cpu.len() == 4
        &&& all_in(self.cpu, ByteClass::Digit)
        &&& self.task_name.len() > 0
        &&& all_in(self.task_name, ByteClass::Name)
        &&& !ByteClass::Space.has(self.task_name[0])
        &&& is_uint_text(self.tid)
        &&& match self.pid {
            Some(pid) => is_uint_text(pid),
            None => true,
        }
        &&& is_decimal(self.wait_time_ms)
        &&& is_decimal(self.sch_delay_ms)
        &&& is_decimal(self.run_time_ms)
    }

    /// The record that the fields stand for.
    pub open spec fn record(self) -> Record {
        Record {
            time: self.time,
            cpu: digits_value(self.cpu) as u16,
            task_name: self.task_name,
            tid: digits_value(self.tid) as u64,
            pid: match self.pid {
                Some(pid) => Some(digits_value(pid) as u64),
                None => None,
            },
            wait_time_ms: self.wait_time_ms,
            sch_delay_ms: self.sch_delay_ms,
            run_time_ms: self.run_time_ms,
        }
    }
}

impl Padding {
    /// Every mandatory separator has at least one whitespace byte, the lead is
    /// made of spaces, and the trailer does not go on with the run time.
    pub open spec fn wf(self) -> bool {
        &&& all_in(self.lead, ByteClass::Blank)
        &&& self.after_time.len() > 0
        &&& all_in(self.after_time, ByteClass::Space)
        &&& self.after_cpu.len() > 0
        &&& all_in(self.after_cpu, ByteClass::Space)
        &&& all_in(self.before_durations, ByteClass::Space)
        &&& self.after_wait.len() > 0
        &&& all_in(self.after_wait, ByteClass::Space)
        &&& self.after_delay.len() > 0
        &&& all_in(self.after_delay, ByteClass::Space)
        &&& stops(self.trailer, ByteClass::Numeric)
    }
}

/// The CPU field with digits `d`, in front of `after`.
pub open spec fn cpu_text(d: Seq<u8>, after: Seq<u8>) -> Seq<u8> {
    seq![OPEN_BRACKET] + (d + (seq![CLOSE_BRACKET] + after))
}

/// The identity field with the digits of its ids, in front of `after`.
pub open spec fn identity_text(tid: Seq<u8>, pid: Option<Seq<u8>>, after: Seq<u8>) -> Seq<u8> {
    seq![OPEN_BRACKET] + (tid + match pid {
        Some(pid) => seq![SLASH] + (pid + (seq![CLOSE_BRACKET] + after)),
        None => seq![CLOSE_BRACKET] + after,
    })
}

/// The durations with their padding.
pub open spec fn durations_text(f: Fields, p: Padding) -> Seq<u8> {
    p.before_durations + (f.wait_time_ms + (p.after_wait + (f.sch_delay_ms + (p.after_delay + (
    f.run_time_ms + p.trailer)))))
}

/// The line that carries the fields `f` with the padding `p`.
pub open spec fn line_text(f: Fields, p: Padding) -> Seq<u8> {
    p.lead + (f.time + (p.after_time + cpu_text(
        f.cpu,
        p.after_cpu + (f.task_name + identity_text(f.tid, f.pid, durations_text(f, p))),
    )))
}

/// A decimal number starts with a digit or a point.
pub proof fn lemma_decimal_start(t: Seq<u8>)
    requires
        is_decimal(t),
    ensures
        t.len() > 0,
        ByteClass::Numeric.has(t[0]),
        !ByteClass::Space.has(t[0]),
        !ByteClass::Blank.has(t[0]),
{
}

/// A decimal number in front of a text that does not go on with it is read
/// whole.
pub proof fn lemma_float_value_of(text: Seq<u8>, after: Seq<u8>)
    requires
        is_decimal(text),
        stops(after, ByteClass::Numeric),
    ensures
        spec_float_value(text + after) == Ok::<(Seq<u8>, Seq<u8>), ParseError>((text, after)),
{
    lemma_decimal_start(text);
    lemma_run_of_concat(text, after, ByteClass::Numeric);
}

/// Whitespace in front of a text that starts with none is a separator, however
/// long it is.
pub proof fn lemma_separator_of(w: Seq<u8>, after: Seq<u8>)
    requires
        w.len() > 0,
        all_in(w, ByteClass::Space),
        stops(after, ByteClass::Space),
    ensures
        spec_separator(w + after) == Ok::<Seq<u8>, ParseError>(after),
{
    lemma_run_of_concat(w, after, ByteClass::Space);
    assert((w + after)[0] == w[0]);
}

/// Four digits in brackets are read as the number they write.
pub proof fn lemma_cpu_of(d: Seq<u8>, after: Seq<u8>)
    requires
        d.len() == 4,
        all_in(d, ByteClass::Digit),
    ensures
        spec_cpu(cpu_text(d, after)) == Ok::<(u16, Seq<u8>), ParseError>(
            (digits_value(d) as u16, after),
        ),
{
    let r = cpu_text(d, after);
    assert(r[0] == OPEN_BRACKET);
    assert(r[1] == d[0] && r[2] == d[1] && r[3] == d[2] && r[4] == d[3]);
    assert(ByteClass::Digit.has(d[0]) && ByteClass::Digit.has(d[1]) && ByteClass::Digit.has(d[2])
        && ByteClass::Digit.has(d[3]));
    assert(r[5] == CLOSE_BRACKET);
    assert(r.subrange(1, 5) =~= d);
    assert(r.skip(6) =~= after);
}

/// A name in front of a `[` is read whole.
pub proof fn lemma_task_name_of(name: Seq<u8>, after: Seq<u8>)
    requires
        name.len() > 0,
        all_in(name, ByteClass::Name),
        stops(after, ByteClass::Name),
    ensures
        spec_task_name(name + after) == Ok::<(Seq<u8>, Seq<u8>), ParseError>((name, after)),
{
    lemma_run_of_concat(name, after, ByteClass::Name);
    assert((name + after)[0] == name[0]);
    assert(ByteClass::Name.has(name[0]));
}

/// The digits of an integer in front of a text that starts with no digit are
/// read as the number they write.
pub proof fn lemma_uint_of(d: Seq<u8>, after: Seq<u8>)
    requires
        is_uint_text(d),
        stops(after, ByteClass::Digit),
    ensures
        spec_uint(d + after) == Some((digits_value(d) as u64, after)),
{
    lemma_run_of_concat(d, after, ByteClass::Digit);
    assert((d + after)[0] == d[0]);
    assert(ByteClass::Digit.has(d[0]));
    if d[0] == ZERO {
        assert(d.drop_last().len() == 0);
        assert(digits_value(d.drop_last()) == 0);
        assert(digits_value(d) == 0);
        assert((d + after).skip(1) =~= after);
    }
}

/// An identity field is read as its ids: both where it gives both, the thread
/// id alone where it gives one.
pub proof fn lemma_tid_pid_of(tid: Seq<u8>, pid: Option<Seq<u8>>, after: Seq<u8>)
    requires
        is_uint_text(tid),
        match pid {
            Some(pid) => is_uint_text(pid),
            None => true,
        },
    ensures
        spec_tid_pid(identity_text(tid, pid, after)) == Ok::<
            ((u64, Option<u64>), Seq<u8>),
            ParseError,
        >(
            (
                (
                    digits_value(tid) as u64,
                    match pid {
                        Some(pid) => Some(digits_value(pid) as u64),
                        None => None,
                    },
                ),
                after,
            ),
        ),
{
    let r = identity_text(tid, pid, after);
    let close = seq![CLOSE_BRACKET] + after;
    assert(close[0] == CLOSE_BRACKET);
    assert(close.skip(1) =~= after);
    match pid {
        Some(p) => {
            let behind_slash = p + close;
            let behind_tid = seq![SLASH] + behind_slash;
            assert(r.skip(1) =~= tid + behind_tid);
            assert(behind_tid[0] == SLASH);
            assert(behind_tid.skip(1) =~= behind_slash);
            lemma_uint_of(tid, behind_tid);
            lemma_uint_of(p, close);
        },
        None => {
            assert(r.skip(1) =~= tid + close);
            lemma_uint_of(tid, close);
        },
    }
}

/// The durations are read as they stand, whatever whitespace pads them.
pub proof fn lemma_durations_of(f: Fields, p: Padding)
    requires
        f.wf(),
        p.wf(),
    ensures
        spec_durations(durations_text(f, p)) == Ok::<(Seq<u8>, Seq<u8>, Seq<u8>), ParseError>(
            (f.wait_time_ms, f.sch_delay_ms, f.run_time_ms),
        ),
{
    let r5 = f.run_time_ms + p.trailer;
    let r4 = p.after_delay + r5;
    let r3 = f.sch_delay_ms + r4;
    let r2 = p.after_wait + r3;
    let r1 = f.wait_time_ms + r2;
    lemma_decimal_start(f.wait_time_ms);
    lemma_decimal_start(f.sch_delay_ms);
    lemma_decimal_start(f.run_time_ms);
    assert(r1[0] == f.wait_time_ms[0]);
    assert(r2[0] == p.after_wait[0] && ByteClass::Space.has(p.after_wait[0]));
    assert(r3[0] == f.sch_delay_ms[0]);
    assert(r4[0] == p.after_delay[0] && ByteClass::Space.has(p.after_delay[0]));
    assert(r5[0] == f.run_time_ms[0]);
    lemma_run_of_concat(p.before_durations, r1, ByteClass::Space);
    lemma_float_value_of(f.wait_time_ms, r2);
    lemma_separator_of(p.after_wait, r3);
    lemma_float_value_of(f.sch_delay_ms, r4);
    lemma_separator_of(p.after_delay, r5);
    lemma_float_value_of(f.run_time_ms, p.trailer);
}

/// A line laid out as the format prescribes is read as the record of its
/// fields.
pub proof fn lemma_line_of(f: Fields, p: Padding)
    requires
        f.wf(),
        p.wf(),
    ensures
        spec_line(line_text(f, p)) == Ok::<Record, ParseError>(f.record()),
{
    let r6 = durations_text(f, p);
    let r5 = identity_text(f.tid, f.pid, r6);
    let r4 = f.task_name + r5;
    let r3 = p.after_cpu + r4;
    let r2 = cpu_text(f.cpu, r3);
    let r1 = p.after_time + r2;
    let r0 = f.time + r1;
    lemma_decimal_start(f.time);
    assert(r0[0] == f.time[0]);
    assert(r1[0] == p.after_time[0] && ByteClass::Space.has(p.after_time[0]));
    assert(r2[0] == OPEN_BRACKET);
    assert(r3[0] == p.after_cpu[0] && ByteClass::Space.has(p.after_cpu[0]));
    assert(r4[0] == f.task_name[0]);
    assert(r5[0] == OPEN_BRACKET);
    lemma_run_of_concat(p.lead, r0, ByteClass::Blank);
    lemma_float_value_of(f.time, r1);
    lemma_separator_of(p.after_time, r2);
    lemma_cpu_of(f.cpu, r3);
    lemma_separator_of(p.after_cpu, r4);
    lemma_task_name_of(f.task_name, r5);
    lemma_tid_pid_of(f.tid, f.pid, r6);
    lemma_durations_of(f, p);
}

/// Padding does not matter: two lines with the same fields are read as the
/// same record, as long as each mandatory separator of both has at least one
/// whitespace byte.
pub proof fn lemma_padding_is_irrelevant(f: Fields, p: Padding, q: Padding)
    requires
        f.wf(),
        p.wf(),
        q.wf(),
    ensures
        spec_line(line_text(f, p)) == spec_line(line_text(f, q)),
        spec_line(line_text(f, p)) is Ok,
{
    lemma_line_of(f, p);
    lemma_line_of(f, q);
}

/// The same text is read as the same record, field for field, or is refused
/// for the same reason.
pub proof fn lemma_same_text_same_result(a: Seq<u8>, b: Seq<u8>)
    requires
        a =~= b,
    ensures
        spec_line(a) == spec_line(b),
{
}

/// A text splits into its greedy run and what stops the run.
pub proof fn lemma_split_at_run(r: Seq<u8>, class: ByteClass)
    ensures
        r == r.take(run_len(r, class) as int) + r.skip(run_len(r, class) as int),
        all_in(r.take(run_len(r, class) as int), class),
        stops(r.skip(run_len(r, class) as int), class),
{
    lemma_run_len(r, class);
    let n = run_len(r, class) as int;
    assert(r =~= r.take(n) + r.skip(n));
}

/// A separator that was read is a whitespace run in front of the rest.
pub proof fn lemma_separator_text(r: Seq<u8>)
    requires
        spec_separator(r) is Ok,
    ensures
        run_len(r, ByteClass::Space) > 0,
        r == r.take(run_len(r, ByteClass::Space) as int) + spec_separator(r)->Ok_0,
        all_in(r.take(run_len(r, ByteClass::Space) as int), ByteClass::Space),
        stops(spec_separator(r)->Ok_0, ByteClass::Space),
{
    lemma_split_at_run(r, ByteClass::Space);
}

/// The digits of the integer that stands at the start of `r`.
pub open spec fn uint_digits(r: Seq<u8>) -> Seq<u8> {
    if r.len() > 0 && r[0] == ZERO {
        r.take(1)
    } else {
        r.take(run_len(r, ByteClass::Digit) as int)
    }
}

/// An integer that was read is the value of its digits, which stand in front
/// of the rest.
pub proof fn lemma_uint_text(r: Seq<u8>)
    requires
        spec_uint(r) is Some,
    ensures
        is_uint_text(uint_digits(r)),
        r == uint_digits(r) + spec_uint(r)->Some_0.1,
        spec_uint(r)->Some_0.0 == digits_value(uint_digits(r)),
{
    lemma_split_at_run(r, ByteClass::Digit);
    let d = uint_digits(r);
    if r[0] == ZERO {
        assert(d.drop_last().len() == 0);
        assert(digits_value(d.drop_last()) == 0);
        assert(digits_value(d) == 0);
        assert(r =~= d + r.skip(1));
    } else {
        assert(d[0] == r[0]);
    }
}

/// The digits of the ids of the identity field at the start of `r`.
pub open spec fn identity_digits(r: Seq<u8>) -> (Seq<u8>, Option<Seq<u8>>) {
    let inner = r.skip(1);
    let tid = uint_digits(inner);
    if spec_tid_and_pid(inner) is Some {
        (tid, Some(uint_digits(inner.skip(tid.len() as int + 1))))
    } else {
        (tid, None)
    }
}

/// An identity field that was read is the text of its ids in brackets, in
/// front of the rest.
pub proof fn lemma_identity_text(r: Seq<u8>)
    requires
        spec_tid_pid(r) is Ok,
    ensures
        r == identity_text(
            identity_digits(r).0,
            identity_digits(r).1,
            spec_tid_pid(r)->Ok_0.1,
        ),
        is_uint_text(identity_digits(r).0),
        spec_tid_pid(r)->Ok_0.0.0 == digits_value(identity_digits(r).0),
        match identity_digits(r).1 {
            Some(pid) => is_uint_text(pid) && spec_tid_pid(r)->Ok_0.0.1 == Some(
                digits_value(pid) as u64,
            ),
            None => spec_tid_pid(r)->Ok_0.0.1 is None,
        },
{
    let inner = r.skip(1);
    let rest = spec_tid_pid(r)->Ok_0.1;
    let close = seq![CLOSE_BRACKET] + rest;
    lemma_uint_text(inner);
    let tid = uint_digits(inner);
    let after_tid = spec_uint(inner)->Some_0.1;
    assert(inner.skip(tid.len() as int) =~= after_tid);
    assert(r =~= seq![OPEN_BRACKET] + inner);
    if spec_tid_and_pid(inner) is Some {
        let behind_slash = after_tid.skip(1);
        assert(inner.skip(tid.len() as int + 1) =~= behind_slash);
        lemma_uint_text(behind_slash);
        let pid = uint_digits(behind_slash);
        let after_pid = spec_uint(behind_slash)->Some_0.1;
        assert(after_pid =~= close);
        assert(after_tid =~= seq![SLASH] + behind_slash);
    } else {
        assert(after_tid =~= close);
    }
}

/// The texts of the fields of an accepted line.
pub open spec fn fields_of(s: Seq<u8>) -> Fields {
    let r0 = s.skip(run_len(s, ByteClass::Blank) as int);
    let (time, r1) = spec_number(r0)->Ok_0;
    let r2 = spec_separator(r1)->Ok_0;
    let r3 = spec_cpu(r2)->Ok_0.1;
    let r4 = spec_separator(r3)->Ok_0;
    let (task_name, r5) = spec_task_name(r4)->Ok_0;
    let r6 = spec_tid_pid(r5)->Ok_0.1;
    let (wait_time_ms, sch_delay_ms, run_time_ms) = spec_durations(r6)->Ok_0;
    Fields {
        time,
        cpu: r2.subrange(1, 5),
        task_name,
        tid: identity_digits(r5).0,
        pid: identity_digits(r5).1,
        wait_time_ms,
        sch_delay_ms,
        run_time_ms,
    }
}

/// The padding of an accepted line.
pub open spec fn padding_of(s: Seq<u8>) -> Padding {
    let r0 = s.skip(run_len(s, ByteClass::Blank) as int);
    let r1 = spec_number(r0)->Ok_0.1;
    let r2 = spec_separator(r1)->Ok_0;
    let r3 = spec_cpu(r2)->Ok_0.1;
    let r4 = spec_separator(r3)->Ok_0;
    let r5 = spec_task_name(r4)->Ok_0.1;
    let r6 = spec_tid_pid(r5)->Ok_0.1;
    let r7 = r6.skip(run_len(r6, ByteClass::Space) as int);
    let r8 = spec_number(r7)->Ok_0.1;
    let r9 = spec_separator(r8)->Ok_0;
    let r10 = spec_number(r9)->Ok_0.1;
    let r11 = spec_separator(r10)->Ok_0;
    let r12 = spec_number(r11)->Ok_0.1;
    Padding {
        lead: s.take(run_len(s, ByteClass::Blank) as int),
        after_time: r1.take(run_len(r1, ByteClass::Space) as int),
        after_cpu: r3.take(run_len(r3, ByteClass::Space) as int),
        before_durations: r6.take(run_len(r6, ByteClass::Space) as int),
        after_wait: r8.take(run_len(r8, ByteClass::Space) as int),
        after_delay: r10.take(run_len(r10, ByteClass::Space) as int),
        trailer: r12,
    }
}

/// Only lines laid out as the format prescribes are accepted: an accepted
/// line is the text of well-formed fields and padding, and its record is the
/// record of those fields.
pub proof fn lemma_accepted_line_has_layout(s: Seq<u8>)
    requires
        spec_line(s) is Ok,
    ensures
        fields_of(s).wf(),
        padding_of(s).wf(),
        line_text(fields_of(s), padding_of(s)) == s,
        fields_of(s).record() == spec_line(s)->Ok_0,
{
    let f = fields_of(s);
    let p = padding_of(s);
    let r0 = s.skip(run_len(s, ByteClass::Blank) as int);
    let r1 = spec_number(r0)->Ok_0.1;
    let r2 = spec_separator(r1)->Ok_0;
    let r3 = spec_cpu(r2)->Ok_0.1;
    let r4 = spec_separator(r3)->Ok_0;
    let r5 = spec_task_name(r4)->Ok_0.1;
    let r6 = spec_tid_pid(r5)->Ok_0.1;
    let r7 = r6.skip(run_len(r6, ByteClass::Space) as int);
    let r8 = spec_number(r7)->Ok_0.1;
    let r9 = spec_separator(r8)->Ok_0;
    let r10 = spec_number(r9)->Ok_0.1;
    let r11 = spec_separator(r10)->Ok_0;
    let r12 = spec_number(r11)->Ok_0.1;
    lemma_split_at_run(s, ByteClass::Blank);
    lemma_split_at_run(r0, ByteClass::Numeric);
    lemma_separator_text(r1);
    assert(is_cpu_field(r2));
    assert(r2 =~= cpu_text(f.cpu, r3));
    lemma_separator_text(r3);
    lemma_split_at_run(r4, ByteClass::Name);
    assert(run_len(r4, ByteClass::Name) > 0);
    assert(f.task_name[0] == r4[0]);
    lemma_identity_text(r5);
    lemma_split_at_run(r6, ByteClass::Space);
    lemma_split_at_run(r7, ByteClass::Numeric);
    lemma_separator_text(r8);
    lemma_split_at_run(r9, ByteClass::Numeric);
    lemma_separator_text(r10);
    lemma_split_at_run(r11, ByteClass::Numeric);
    assert(r11 == f.run_time_ms + p.trailer);
    assert(r10 == p.after_delay + r11);
    assert(r9 == f.sch_delay_ms + r10);
    assert(r8 == p.after_wait + r9);
    assert(r7 == f.wait_time_ms + r8);
    assert(r6 == durations_text(f, p));
    assert(r5 == identity_text(f.tid, f.pid, r6));
    assert(r4 == f.task_name + r5);
    assert(r3 == p.after_cpu + r4);
    assert(r1 == p.after_time + r2);
    assert(r0 == f.time + r1);
}

} // verus!
