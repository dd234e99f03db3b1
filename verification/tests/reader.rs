use procmux::event::{Out, Stream};
use procmux::reader::{ProcessReader, Step};

/// Pops queued events until the reader asks to wait or is exhausted.
fn drain(r: &mut ProcessReader) -> Vec<Out> {
    let mut out: Vec<Out> = Vec::new();
    loop {
        match r.step() {
            Step::Yield(e) => out.push(e),
            _ => return out,
        }
    }
}

#[test]
fn scenario_one_line_each_then_exit() {
    let mut r = ProcessReader::new();
    r.accept_chunk(Stream::Stdout, b"stdout 0\n");
    r.accept_chunk(Stream::Stderr, b"stderr 0\n");
    assert_eq!(r.step(), Step::Yield(Out::Stdout(String::from("stdout 0"))));
    assert_eq!(r.step(), Step::Yield(Out::Stderr(String::from("stderr 0"))));
    assert_eq!(r.step(), Step::Wait);
    let done = r.accept_exit(0);
    assert_eq!(done, Out::Done(0));
    assert_eq!(r.step(), Step::Exhausted);
}

#[test]
fn scenario_immediate_exit() {
    let mut r = ProcessReader::new();
    assert_eq!(r.step(), Step::Wait);
    let done = r.accept_exit(3);
    assert_eq!(done, Out::Done(3));
    assert_eq!(r.step(), Step::Exhausted);
    assert_eq!(r.step(), Step::Exhausted);
}

#[test]
fn scenario_thousand_bytes_no_line_feed() {
    let mut r = ProcessReader::new();
    let payload = [b'x'; 1000];
    r.accept_chunk(Stream::Stdout, &payload[..400]);
    r.accept_chunk(Stream::Stdout, &payload[400..]);
    assert_eq!(r.step(), Step::Wait);
    let done = r.accept_exit(0);
    assert_eq!(done, Out::Done(0));
    assert_eq!(r.step(), Step::Exhausted);
}

#[test]
fn exhaustion_is_idempotent() {
    let mut r = ProcessReader::new();
    r.accept_chunk(Stream::Stdout, b"last line\n");
    assert_eq!(r.step(), Step::Yield(Out::Stdout(String::from("last line"))));
    assert_eq!(r.step(), Step::Wait);
    r.accept_exit(0);
    for _ in 0..5 {
        assert_eq!(r.step(), Step::Exhausted);
    }
    assert!(!r.has_queued());
    assert!(r.is_done());
}

#[test]
fn interleaving_keeps_each_streams_order() {
    let mut r = ProcessReader::new();
    r.accept_chunk(Stream::Stdout, b"A\n");
    r.accept_chunk(Stream::Stderr, b"X\n");
    r.accept_chunk(Stream::Stdout, b"B\n");
    r.accept_chunk(Stream::Stderr, b"Y\n");
    let events = drain(&mut r);
    let stdout_lines: Vec<&Out> = events
        .iter()
        .filter(|e| matches!(e, Out::Stdout(_)))
        .collect();
    let stderr_lines: Vec<&Out> = events
        .iter()
        .filter(|e| matches!(e, Out::Stderr(_)))
        .collect();
    assert_eq!(
        stdout_lines,
        [
            &Out::Stdout(String::from("A")),
            &Out::Stdout(String::from("B"))
        ]
    );
    assert_eq!(
        stderr_lines,
        [
            &Out::Stderr(String::from("X")),
            &Out::Stderr(String::from("Y"))
        ]
    );
    assert_eq!(events.len(), 4);
}

#[test]
fn carriage_returns_stripped_everywhere() {
    let mut r = ProcessReader::new();
    r.accept_chunk(Stream::Stdout, b"one\r\n\rtwo\rx\n");
    let events = drain(&mut r);
    assert_eq!(
        events,
        [
            Out::Stdout(String::from("one")),
            Out::Stdout(String::from("twox"))
        ]
    );
}

#[test]
fn lines_in_emission_order_without_line_feeds() {
    let mut r = ProcessReader::new();
    r.accept_chunk(Stream::Stderr, b"first\nsecond\nthird\n");
    let events = drain(&mut r);
    assert_eq!(events.len(), 3);
    assert_eq!(events[0], Out::Stderr(String::from("first")));
    assert_eq!(events[1], Out::Stderr(String::from("second")));
    assert_eq!(events[2], Out::Stderr(String::from("third")));
    for e in &events {
        if let Out::Stderr(text) = e {
            assert!(!text.contains('\n'));
            assert!(!text.contains('\r'));
        }
    }
}

#[test]
fn trailing_fragment_never_emitted() {
    let mut r = ProcessReader::new();
    r.accept_chunk(Stream::Stdout, b"complete\npartial");
    assert_eq!(
        r.step(),
        Step::Yield(Out::Stdout(String::from("complete")))
    );
    assert_eq!(r.step(), Step::Wait);
    let done = r.accept_exit(0);
    assert_eq!(done, Out::Done(0));
    assert_eq!(r.step(), Step::Exhausted);
}

#[test]
fn invalid_bytes_replaced_not_fatal() {
    let mut r = ProcessReader::new();
    r.accept_chunk(Stream::Stdout, &[0xff, 0xfe, b'!', b'\n']);
    let events = drain(&mut r);
    assert_eq!(
        events,
        [Out::Stdout(String::from("\u{fffd}\u{fffd}!"))]
    );
}

#[test]
fn line_split_across_reads() {
    let mut r = ProcessReader::new();
    r.accept_chunk(Stream::Stdout, b"hel");
    assert_eq!(r.step(), Step::Wait);
    r.accept_chunk(Stream::Stdout, b"lo wor");
    r.accept_chunk(Stream::Stdout, b"ld\ntail");
    let events = drain(&mut r);
    assert_eq!(events, [Out::Stdout(String::from("hello world"))]);
}

#[test]
fn empty_lines_are_events() {
    let mut r = ProcessReader::new();
    r.accept_chunk(Stream::Stdout, b"\n\n");
    let events = drain(&mut r);
    assert_eq!(
        events,
        [
            Out::Stdout(String::from("")),
            Out::Stdout(String::from(""))
        ]
    );
}

#[test]
fn wait_until_something_is_queued() {
    let mut r = ProcessReader::new();
    assert_eq!(r.step(), Step::Wait);
    assert_eq!(r.step(), Step::Wait);
    assert!(!r.has_queued());
    assert!(!r.is_done());
    r.accept_chunk(Stream::Stderr, b"now\n");
    assert!(r.has_queued());
    assert_eq!(r.step(), Step::Yield(Out::Stderr(String::from("now"))));
}

#[test]
fn negative_exit_code_carried_through() {
    let mut r = ProcessReader::new();
    let done = r.accept_exit(-9);
    assert_eq!(done, Out::Done(-9));
    assert_eq!(r.step(), Step::Exhausted);
}
