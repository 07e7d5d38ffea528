use crok::command::{program_for, CommandLine, CommandResult, CommandRun, RunStep};
use crok::procstream::capture::{
    drive, tag_items, Capture, DriveStep, Event, PipeSink, QueueLook, RecvTimeout, Sink, Stdin,
    Stream,
};
use crok::procstream::driver::{poll_wait, start_step, DriverState, ExitSource, StartStep, MAX_WAIT};
use crok::procstream::framer::{Line, LineEnding, Overlong};
use crok::procstream::job::{grace_for, shutdown_step, ShutdownStep, Signal};
use crok::procstream::transform::{LineRecipe, RawRecipe, Transform, DEFAULT_MAX_LINE};
use crok::run::{captured_run, RunOutcome};
use crok::script::{ScriptFile, ScriptLocation};

fn command(text: &str) -> CommandLine {
    CommandLine::new(
        text.to_string(),
        ScriptLocation::new(ScriptFile::new("test"), 1),
        1,
    )
}

#[test]
fn programs_run_commands() {
    assert_eq!(
        command("echo 'a b'").program(None).unwrap().unwrap(),
        vec!["sh", "-c", "echo 'a b'"]
    );
    assert_eq!(
        command("x").program(Some("docker run 'my image'".to_string())).unwrap().unwrap(),
        vec!["docker", "run", "my image", "x"]
    );
    assert!(command("x").program(Some("a 'b".to_string())).unwrap().is_err());
    assert!(command("x").program(Some("  ".to_string())).is_none());
    assert_eq!(program_for(Some(vec!["r".to_string()]), "c"), vec!["r", "c"]);
}

#[test]
fn results_of_commands() {
    assert!(CommandResult::Exit(Some(0)).success());
    assert!(!CommandResult::Exit(Some(1)).success());
    assert!(!CommandResult::Exit(None).success());
    assert!(!CommandResult::TimedOut.success());
}

fn line(text: &str, ending: LineEnding) -> Line {
    Line { bytes: text.as_bytes().to_vec(), ending }
}

#[test]
fn runs_are_timed() {
    let mut run = CommandRun::new(1000);
    assert_eq!(run.step(0), RunStep::Receive(900));
    assert_eq!(run.step(850), RunStep::Receive(50));
    assert_eq!(run.step(950), RunStep::Receive(0));
    assert!(run.on_silence(950));
    assert!(!run.on_silence(960));
    assert_eq!(run.step(950), RunStep::Receive(150));
    assert_eq!(run.step(1100), RunStep::TimedOut);
    run.on_closed();
    assert_eq!(run.step(1000), RunStep::PollExit);
    assert_eq!(run.step(1100), RunStep::TimedOut);
    let forever = CommandRun::new(crok::command::MAX_NANOS);
    assert_eq!(forever.step(0), RunStep::Receive(crok::command::MAX_NANOS / 100));
}

#[test]
fn output_of_a_run_is_gathered() {
    let mut run = CommandRun::new(1000);
    let shown = run.on_piece(Stream::Stdout, &line("\x1b[1ma\x1b[0m", LineEnding::Lf)).unwrap();
    assert_eq!((shown.index, shown.stream, shown.text.as_str()), (0, Stream::Stdout, "a"));
    assert!(run.on_piece(Stream::Stderr, &line("bc", LineEnding::Overlong)).is_none());
    let shown = run.on_piece(Stream::Stderr, &line("d", LineEnding::CrLf)).unwrap();
    assert_eq!((shown.index, shown.stream, shown.text.as_str()), (1, Stream::Stderr, "bcd"));
    let shown = run.on_piece(Stream::Stdout, &line("e\r", LineEnding::Eof)).unwrap();
    assert_eq!(shown.text, "e");
    let shown = run
        .on_piece(Stream::Stdout, &Line { bytes: vec![0xff], ending: LineEnding::Lf })
        .unwrap();
    assert_eq!(shown.text, "\u{fffd}");
    assert_eq!(
        run.into_lines().into_inner(),
        vec!["\x1b[1ma\x1b[0m", "bcd", "e", "\u{fffd}"]
    );
}

#[test]
fn captures_are_built() {
    let lines = Capture::<LineRecipe>::lines();
    assert!(matches!(
        &lines.stdout,
        Sink::Piped(t) if t.framer.max == DEFAULT_MAX_LINE && t.framer.policy == Overlong::Truncate
    ));
    assert!(matches!(&lines.stderr, Sink::Piped(_)));
    assert_eq!(lines.stdin, Stdin::Null);
    let raw = Capture::<RawRecipe>::raw();
    assert!(matches!(&raw.stdout, Sink::Piped(t) if t.stages.is_empty()));
    let built = Capture::builder()
        .stdout(Transform::raw())
        .stderr(Transform::raw())
        .stderr_null()
        .stdin_piped()
        .build();
    assert!(matches!(&built.stdout, Sink::Piped(_)));
    assert!(matches!(&built.stderr, Sink::Null));
    assert_eq!(built.stdin, Stdin::Piped);
    let built = Capture::builder().stdout(Transform::raw()).stdout_null().stdin_null().build();
    assert!(matches!(&built.stdout, Sink::Null));
    assert_eq!(built.stdin, Stdin::Null);
}

#[test]
fn streams_become_events() {
    let mut sink = PipeSink::new(Transform::builder().lines().build(), Stream::Stderr);
    let mut events = sink.on_read(b"a\nb");
    events.extend(sink.on_eof());
    assert_eq!(events.len(), 2);
    match (&events[0], &events[1]) {
        (Event::Chunk(a), Event::Chunk(b)) => {
            assert_eq!((a.stream, a.item.bytes.as_slice()), (Stream::Stderr, &b"a"[..]));
            assert_eq!((b.item.ending, b.item.bytes.as_slice()), (LineEnding::Eof, &b"b"[..]));
        }
        _ => panic!("no chunks"),
    }
    let tagged = tag_items(Stream::Stdout, vec![1, 2, 3]);
    let items: Vec<i32> = tagged
        .iter()
        .map(|e| match e {
            Event::Chunk(c) => c.item,
            Event::Exit(_) => 0,
        })
        .collect();
    assert_eq!(items, vec![1, 2, 3]);
}

#[test]
fn receiving_is_driven() {
    assert_eq!(drive(QueueLook::Event, true, None, 0), DriveStep::Deliver);
    assert_eq!(
        drive(QueueLook::Closed, false, None, 0),
        DriveStep::Fail(RecvTimeout::Closed)
    );
    assert_eq!(drive(QueueLook::Empty, true, Some(0), 9), DriveStep::Drain);
    assert_eq!(
        drive(QueueLook::Empty, false, Some(5), 5),
        DriveStep::Fail(RecvTimeout::Timeout)
    );
    assert_eq!(drive(QueueLook::Empty, false, Some(5), 2), DriveStep::Advance(Some(3)));
    assert_eq!(drive(QueueLook::Empty, false, None, 2), DriveStep::Advance(None));
}

#[test]
fn drivers_are_done_once_drained() {
    let mut d = DriverState::new();
    d.add_stream(true);
    d.add_stream(false);
    d.add_stream(true);
    assert!(!d.is_done());
    assert!(d.wants_read(0) && !d.wants_read(1) && d.wants_read(2) && !d.wants_read(3));
    d.close_stream(2);
    d.close_stream(2);
    assert!(!d.wants_read(2));
    assert!(d.reap());
    assert!(!d.reap());
    assert!(!d.is_done());
    d.close_stream(0);
    assert!(d.is_done());
    assert!(!d.wants_read(0));

    let mut d = DriverState::new();
    assert!(d.reap());
    assert!(d.is_done());

    let mut d = DriverState::new();
    d.add_stream(true);
    assert!(d.abort());
    assert!(d.is_done());
    assert!(!d.abort());
}

#[test]
fn polls_are_bounded() {
    assert_eq!(poll_wait(None), None);
    assert_eq!(poll_wait(Some(5)), Some(5));
    assert_eq!(poll_wait(Some(u128::MAX)), Some(MAX_WAIT));
    assert_eq!(start_step(ExitSource::Registered, true), StartStep::Run);
    assert_eq!(start_step(ExitSource::Registered, false), StartStep::Reap);
    assert_eq!(start_step(ExitSource::Gone, true), StartStep::Reap);
    assert_eq!(start_step(ExitSource::Failed, true), StartStep::GiveUp);
}

#[test]
fn trees_are_brought_down() {
    assert!(Signal::Terminate.is_delivered(false));
    assert!(!Signal::Terminate.is_delivered(true));
    assert!(Signal::Kill.is_delivered(true));
    assert!(Signal::Terminate.terminates(false));
    assert!(!Signal::Terminate.terminates(true));
    assert!(!Signal::Interrupt.terminates(false));
    assert!(Signal::Kill.terminates(true));
    assert_eq!(grace_for(false, Signal::Terminate, 7), 7);
    assert_eq!(grace_for(true, Signal::Terminate, 7), 0);
    assert_eq!(grace_for(true, Signal::Kill, 7), 7);
    assert_eq!(shutdown_step(true, 9, 5), ShutdownStep::Exited);
    assert_eq!(shutdown_step(false, 5, 5), ShutdownStep::Escalate);
    assert_eq!(shutdown_step(false, 4, 5), ShutdownStep::Wait);
}

#[test]
fn captured_runs() {
    assert_eq!(captured_run(RunOutcome::Passed, "o".to_string()).unwrap(), "o");
    let e = captured_run(RunOutcome::Failed("f".to_string()), "o".to_string()).unwrap_err();
    assert_eq!((e.error.as_str(), e.output.as_str()), ("f", "o"));
    let e = captured_run(
        RunOutcome::NotRead(vec!["a".to_string(), "b".to_string()]),
        "o".to_string(),
    )
    .unwrap_err();
    assert_eq!((e.error.as_str(), e.output.as_str()), ("a\nb", ""));
}
