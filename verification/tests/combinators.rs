// The same grammar written with parser combinators, to hold the byte-level
// parser against on a set of lines.

use perf_sched_plot::line::ParsedData;
use winnow::ascii::{dec_uint, multispace0, multispace1};
use winnow::combinator::{alt, delimited, separated_pair};
use winnow::token::{take_till, take_while};
use winnow::{PResult, Parser};

struct Combined<'a> {
    time: f64,
    cpu: u16,
    task_name: &'a str,
    tid: u64,
    pid: Option<u64>,
    wait_time_ms: f64,
    sch_delay_ms: f64,
    run_time_ms: f64,
}

fn cpu(input: &mut &str) -> PResult<u16> {
    delimited(
        '[',
        take_while(4..=4, |c: char| c.is_ascii_digit()).try_map(|s: &str| s.parse::<u16>()),
        ']',
    )
    .parse_next(input)
}

fn task_name<'a>(input: &mut &'a str) -> PResult<&'a str> {
    take_till(1.., |c| c == '[')
        .verify(|s: &str| !s.is_empty())
        .parse_next(input)
}

fn tid_pid(input: &mut &str) -> PResult<(u64, Option<u64>)> {
    let both = separated_pair(dec_uint, '/', dec_uint.map(Some));
    let single = dec_uint.map(|tid| (tid, None));
    delimited('[', alt((both, single)), ']').parse_next(input)
}

fn float_value(input: &mut &str) -> PResult<f64> {
    take_while(1.., |c: char| c.is_ascii_digit() || c == '.')
        .try_map(|s: &str| s.parse::<f64>())
        .parse_next(input)
}

fn line<'a>(input: &mut &'a str) -> PResult<Combined<'a>> {
    take_while(0.., ' ').parse_next(input)?;
    let time = float_value.parse_next(input)?;
    multispace1.parse_next(input)?;
    let cpu = cpu.parse_next(input)?;
    multispace1.parse_next(input)?;
    let task_name = task_name.parse_next(input)?;
    let (tid, pid) = tid_pid.parse_next(input)?;
    multispace0.parse_next(input)?;
    let wait_time_ms = float_value.parse_next(input)?;
    multispace1.parse_next(input)?;
    let sch_delay_ms = float_value.parse_next(input)?;
    multispace1.parse_next(input)?;
    let run_time_ms = float_value.parse_next(input)?;
    Ok(Combined { time, cpu, task_name, tid, pid, wait_time_ms, sch_delay_ms, run_time_ms })
}

fn number(text: &str) -> f64 {
    text.parse::<f64>().unwrap()
}

fn agree(text: &str) {
    let mut cursor = text;
    let theirs = line(&mut cursor);
    let ours = ParsedData::from_str(text);
    match (theirs, ours) {
        (Ok(t), Ok(o)) => {
            assert_eq!(t.time.to_bits(), number(o.time).to_bits(), "{:?}", text);
            assert_eq!(t.cpu, o.cpu, "{:?}", text);
            assert_eq!(t.task_name, o.task_name, "{:?}", text);
            assert_eq!(t.tid, o.tid, "{:?}", text);
            assert_eq!(t.pid, o.pid, "{:?}", text);
            assert_eq!(t.wait_time_ms.to_bits(), number(o.wait_time_ms).to_bits(), "{:?}", text);
            assert_eq!(t.sch_delay_ms.to_bits(), number(o.sch_delay_ms).to_bits(), "{:?}", text);
            assert_eq!(t.run_time_ms.to_bits(), number(o.run_time_ms).to_bits(), "{:?}", text);
        }
        (Err(_), Err(_)) => {}
        (theirs, ours) => panic!("{:?}: {:?} against {:?}", text, theirs.is_ok(), ours),
    }
}

#[test]
fn agrees_on_well_formed_lines() {
    for text in [
        " 2777601.141980 [0000]  migration/0[18]                     0.000      0.002      0.012",
        "2777601.142344 [0005]  tokio-runtime-w[426106/426078]      0.002      0.000      0.004",
        "1 [0000] a[1] 1 2 3",
        "1 [0000] a[1]1 2 3",
        "1\t[0000]\r\na b c  [0/0]\n1. .5 0.\n",
        "   .5 [9999] x]y[18446744073709551615] 1 2 3 tail",
        "1 [0000] <idle>[0] 0.000 0.000 0.000",
        "1 [0000] t\u{e2}che \u{4e16}[12/34] 1 2 3",
        "00001 [0001] a[10/20]   0009.9000 2 3.",
        "123456789012345678901234567890.5 [0001] a[1] 1 2 3",
    ] {
        agree(text);
        assert!(ParsedData::from_str(text).is_ok(), "{:?}", text);
    }
}

#[test]
fn agrees_on_malformed_lines() {
    for text in [
        "",
        " ",
        "\t1 [0000] a[1] 1 2 3",
        "\n1 [0000] a[1] 1 2 3",
        "1.2.3 [0000] a[1] 1 2 3",
        ". [0000] a[1] 1 2 3",
        "-1 [0000] a[1] 1 2 3",
        "1[0000] a[1] 1 2 3",
        "1 [000] a[1] 1 2 3",
        "1 [00000] a[1] 1 2 3",
        "1 [05] a[1] 1 2 3",
        "1 [0x00] a[1] 1 2 3",
        "1 0000] a[1] 1 2 3",
        "1 [0000 a[1] 1 2 3",
        "1 [0000]a[1] 1 2 3",
        "1 [0000] [1] 1 2 3",
        "1 [0000]  [18]  0.0 0.0 0.0",
        "1 [0000] a 1 2 3",
        "1 [0000] a[] 1 2 3",
        "1 [0000] a[x] 1 2 3",
        "1 [0000] a[1/] 1 2 3",
        "1 [0000] a[/1] 1 2 3",
        "1 [0000] a[1/2/3] 1 2 3",
        "1 [0000] a[01] 1 2 3",
        "1 [0000] a[1/02] 1 2 3",
        "1 [0000] a[18446744073709551616] 1 2 3",
        "1 [0000] a[1/18446744073709551616] 1 2 3",
        "1 [0000] a[1 1 2 3",
        "1 [0000] a[1] x 2 3",
        "1 [0000] a[1] 1,2 3",
        "1 [0000] a[1] 1 2",
        "1 [0000] a[1] 1 2 ",
        "1 [0000] a[1] 1 2 x",
        "1 [0000] a[1] 1 2 ..",
        "1 [0000] a[1] 1. .2. 3",
        "header line of a report",
    ] {
        agree(text);
        assert!(ParsedData::from_str(text).is_err(), "{:?}", text);
    }
}

#[test]
fn agrees_on_every_prefix_of_a_line() {
    let whole = "  12.5 [0042]  kworker/3:1-ev[4321/17]   0.010  1.250\t33.000\r\n";
    for cut in 0..=whole.len() {
        agree(&whole[..cut]);
    }
}

#[test]
fn agrees_when_one_byte_is_replaced() {
    let whole = "1.5 [0042] sh[43/17] 0.1 1.2 3.0";
    for at in 0..whole.len() {
        for with in ["[", "]", "/", ".", " ", "0", "7", "x", "\t"] {
            let mut text = String::from(&whole[..at]);
            text.push_str(with);
            text.push_str(&whole[at + 1..]);
            agree(&text);
        }
    }
}
