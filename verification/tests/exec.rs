use runandlog::cancel::Cancellers;
use runandlog::capture::{Arrival, Capture, Reading};
use runandlog::exec::{
    missing_directory_message, next_watch, outcome_of, Ending, Report, Stop, Watch,
};
use runandlog::paths::{is_inside_dir, FsPath, PathPart};
use runandlog::time::{Elapsed, Timestamp};
use runandlog::{Canceller, ExecOutcome};

/// Watches a run: a stop is asked for in round `asked`, the command ends by itself in round
/// `ends`, and a round takes one second.
fn watch(asked: Option<u64>, ends: u64, timeout: Option<u64>) -> Ending {
    let timeout = timeout.map(Elapsed::from_secs);
    let mut now = Watch::Ask;
    let mut round = 0;
    for _ in 0..1000 {
        let report = match now {
            Watch::Ask => Report::Asked(asked.is_some_and(|at| at <= round)),
            Watch::Poll => Report::Polled(if ends <= round { Some(Some(3)) } else { None }),
            Watch::Clock => Report::Clocked(Elapsed::from_secs(round)),
            Watch::Rest => {
                round += 1;
                Report::Rested
            }
            Watch::Kill(_) => Report::Reaped(None),
            Watch::Over(ending) => return ending,
        };
        now = next_watch(now, report, timeout);
    }
    panic!("the run never ends");
}

#[test]
fn a_command_that_ends_by_itself_reports_its_exit_code() {
    let ending = watch(None, 4, None);
    assert_eq!(
        ending,
        Ending { exit_code: Some(3), timed_out: false, cancelled: false }
    );
}

#[test]
fn a_stop_is_seen_before_the_command_is_polled() {
    let ending = watch(Some(4), 4, None);
    assert!(ending.cancelled);
    assert!(!ending.timed_out);
    assert_eq!(ending.exit_code, None);
    assert!(watch(Some(0), 9, None).cancelled);
}

#[test]
fn a_command_is_killed_once_its_time_is_up() {
    let ending = watch(None, 9, Some(5));
    assert!(ending.timed_out);
    assert!(!ending.cancelled);
    assert!(!watch(None, 5, Some(5)).timed_out);
    assert!(watch(None, 6, Some(5)).timed_out);
}

#[test]
fn a_report_that_was_not_asked_for_changes_nothing() {
    assert_eq!(next_watch(Watch::Ask, Report::Rested, None), Watch::Ask);
    assert_eq!(
        next_watch(Watch::Kill(Stop::TimedOut), Report::Asked(true), None),
        Watch::Kill(Stop::TimedOut)
    );
}

#[test]
fn a_stop_kills_what_runs_and_nothing_else() {
    let mut canceller = Canceller::new();
    assert!(!canceller.is_cancelled());
    assert_eq!(canceller.cancel(), None);
    assert!(canceller.is_cancelled());

    let mut canceller = Canceller::new();
    canceller.set_group(41);
    let running: Result<Option<i32>, String> = canceller.poll_with_group(|| Ok(None));
    assert_eq!(running, Ok(None));
    assert_eq!(canceller.group(), 41);
    assert_eq!(canceller.cancel(), Some(41));
    let failed: Result<Option<i32>, String> = canceller.poll_with_group(|| Err("x".to_string()));
    assert!(failed.is_err());
    assert_eq!(canceller.group(), 41);
    let ended: Result<Option<i32>, String> = canceller.poll_with_group(|| Ok(Some(0)));
    assert_eq!(ended, Ok(Some(0)));
    assert_eq!(canceller.group(), 0);
    assert_eq!(canceller.cancel(), None);
    canceller.set_group(5);
    canceller.forget();
    assert_eq!(canceller.cancel(), None);
    assert!(!Canceller::default().is_cancelled());
    assert_eq!(Canceller::default().group(), 0);
}

#[test]
fn output_beyond_the_limit_is_dropped() {
    let mut capture = Capture::new(5);
    capture.take(b"abc");
    assert!(!capture.is_truncated());
    capture.take(b"de");
    assert!(!capture.is_truncated());
    assert_eq!(capture.output(), "abcde");
    capture.take(b"");
    assert!(!capture.is_truncated());
    capture.take(b"f");
    assert!(capture.is_truncated());
    assert_eq!(capture.output(), "abcde");

    let mut capture = Capture::new(5);
    capture.take(b"abcdefgh");
    assert!(capture.is_truncated());
    assert_eq!(capture.output(), "abcde");
}

#[test]
fn pieces_of_output_never_split_a_character() {
    let text = "aé行𝄞z\n";
    let bytes = text.as_bytes();
    for cut in 0..=bytes.len() {
        for second in cut..=bytes.len() {
            let mut capture = Capture::new(100);
            let mut shown = String::new();
            for part in [&bytes[..cut], &bytes[cut..second], &bytes[second..]] {
                capture.take(part);
                let piece = capture.next_piece();
                assert!(!piece.contains('\u{fffd}'));
                shown.push_str(&piece);
            }
            shown.push_str(&capture.last_piece());
            assert_eq!(shown, text);
            assert_eq!(capture.output(), text);
        }
    }
}

#[test]
fn bytes_that_are_no_text_are_replaced() {
    let mut capture = Capture::new(100);
    capture.take(b"a\xffb\xe8");
    assert_eq!(capture.output(), "a\u{fffd}b\u{fffd}");
    assert_eq!(capture.next_piece(), "a\u{fffd}b");
    assert_eq!(capture.next_piece(), "");
    assert_eq!(capture.last_piece(), "\u{fffd}");
    assert_eq!(capture.last_piece(), "");
}

#[test]
fn a_signal_after_a_stop_counts_as_cancelled() {
    let at = Timestamp::new(2026, 8, 14, 9, 53, 32, 0).unwrap();
    let mut capture = Capture::new(2);
    capture.take(b"abc");
    let end = |exit_code, timed_out, cancelled, requested| {
        let ending = Ending { exit_code, timed_out, cancelled };
        outcome_of(at, Elapsed::from_secs(1), ending, requested, &capture)
    };
    assert!(end(None, false, false, true).cancelled);
    assert!(!end(Some(0), false, false, true).cancelled);
    assert!(!end(None, false, false, false).cancelled);
    assert!(end(Some(1), false, true, false).cancelled);
    let outcome = end(None, true, false, false);
    assert!(outcome.timed_out);
    assert!(outcome.truncated);
    assert_eq!(outcome.output, "ab");
    assert_eq!(outcome.started_at, at);
    assert_eq!(outcome.duration, Elapsed::from_secs(1));
}

#[test]
fn a_missing_working_directory_is_named() {
    assert_eq!(
        missing_directory_message("/gone"),
        "working directory does not exist: /gone"
    );
}

#[test]
fn a_stop_is_seen_through_every_copy_of_its_handle() {
    let mut cancellers = Cancellers::default();
    let handle = cancellers.add_canceller();
    let copy = handle.clone();
    let other = cancellers.add_canceller();
    assert!(cancellers.has(other));
    assert!(!Cancellers::new().has(handle));
    assert_eq!(cancellers.cancel(copy), None);
    assert!(cancellers.is_cancelled(handle));
    assert!(cancellers.is_cancelled(copy));
    assert!(!cancellers.is_cancelled(other));

    cancellers.set_group(handle, 41);
    assert_eq!(cancellers.cancel(handle), Some(41));
    assert_eq!(cancellers.group(copy), 41);
    let ended: Result<Option<i32>, String> = cancellers.poll_with_group(copy, || Ok(Some(0)));
    assert_eq!(ended, Ok(Some(0)));
    assert_eq!(cancellers.cancel(handle), None);
    cancellers.set_group(handle, 43);
    cancellers.forget(handle);
    assert_eq!(cancellers.group(handle), 0);
    assert!(cancellers.is_cancelled(copy));
    assert!(!cancellers.is_cancelled(other));
}

#[test]
fn paths_are_read_as_components() {
    let read = |path: &str| FsPath::from_text(path).components();
    let name = |text: &str| PathPart::Name(text.as_bytes().to_vec());
    assert_eq!(read(""), vec![]);
    assert_eq!(read("/"), vec![PathPart::Root]);
    assert_eq!(read("//a//b/"), vec![PathPart::Root, name("a"), name("b")]);
    assert_eq!(read("./a/./b"), vec![PathPart::Current, name("a"), name("b")]);
    assert_eq!(read("a/../.b"), vec![name("a"), PathPart::Parent, name(".b")]);
    assert_eq!(read("/./..."), vec![PathPart::Root, name("...")]);
    for path in ["", "/", "/a//b/", "./a/.", "..", "../a/..", "a", "/.."] {
        assert_eq!(FsPath::from_text(path).to_bytes(), path.as_bytes());
    }
    assert_eq!(FsPath::from_text("a//./b/"), FsPath::from_text("a/b"));
    assert_ne!(FsPath::from_text("./a"), FsPath::from_text("a"));
}

#[test]
fn paths_are_read_like_the_standard_library_reads_them() {
    for path in [
        "", "/", "a", "/a", "a/b/", "./a", "a/.", "a/..", "//x//y", "/..", ".", "//", "/.", "a//./b/./",
        "./.", "..", "a/./..", "/./x",
    ] {
        let own = FsPath::from_text(path);
        let known = std::path::Path::new(path);
        let bytes = |p: &std::path::Path| p.to_str().unwrap().to_string();
        assert_eq!(
            own.file_name().map(|n| String::from_utf8(n).unwrap()),
            known.file_name().map(|n| n.to_str().unwrap().to_string()),
            "{path}"
        );
        assert_eq!(
            own.file_stem().map(|n| String::from_utf8(n).unwrap()),
            known.file_stem().map(|n| n.to_str().unwrap().to_string()),
            "{path}"
        );
        assert_eq!(
            own.parent().map(|p| String::from_utf8(p.to_bytes()).unwrap()),
            known.parent().map(bytes),
            "{path}"
        );
        for other in ["", "b", "/b", "./b", "../b", ".", "b/", "b//c/."] {
            assert_eq!(
                String::from_utf8(own.join(other).to_bytes()).unwrap(),
                bytes(&known.join(other)),
                "{path} + {other}"
            );
            assert_eq!(
                own.starts_with(&FsPath::from_text(other)),
                known.starts_with(other),
                "{path} < {other}"
            );
        }
        assert_eq!(
            String::from_utf8(own.with_file_name(b"n").to_bytes()).unwrap(),
            bytes(&known.with_file_name("n")),
            "{path}"
        );
    }
}

#[test]
fn stems_end_before_the_last_dot() {
    let stem = |path: &str| {
        FsPath::from_text(path)
            .file_stem()
            .map(|name| String::from_utf8(name).unwrap())
    };
    assert_eq!(stem("/a/b.tar.gz").as_deref(), Some("b.tar"));
    assert_eq!(stem(".hidden").as_deref(), Some(".hidden"));
    assert_eq!(stem("a.").as_deref(), Some("a"));
    assert_eq!(stem("..."), Some("..".to_string()));
    assert_eq!(stem("/"), None);
}

#[test]
fn destinations_outside_are_recognised() {
    assert!(is_inside_dir("a.txt"));
    assert!(is_inside_dir("./logs/a.txt"));
    assert!(is_inside_dir("a/./b"));
    assert!(is_inside_dir("..."));
    assert!(is_inside_dir(""));
    assert!(!is_inside_dir("../a"));
    assert!(!is_inside_dir("a/../b"));
    assert!(!is_inside_dir("/a"));
    assert!(!is_inside_dir("a/.."));
}

#[test]
fn output_is_read_until_its_end() {
    let mut capture = Capture::new(4);
    let mut now = Reading::Look;
    for arrival in [
        Arrival::Stop(false),
        Arrival::Ready(true),
        Arrival::Bytes(b"abc"),
        Arrival::Stop(false),
        Arrival::Ready(false),
        Arrival::Stop(false),
        Arrival::Ready(true),
        Arrival::Again,
        Arrival::Stop(false),
        Arrival::Ready(true),
        Arrival::Bytes(b"def"),
        Arrival::Stop(false),
        Arrival::Ready(true),
    ] {
        now = capture.next_reading(now, arrival);
        assert_ne!(now, Reading::Over);
    }
    assert_eq!(capture.next_reading(now, Arrival::Bytes(b"")), Reading::Over);
    assert_eq!(capture.output(), "abcd");
    assert!(capture.is_truncated());
}

#[test]
fn reading_stops_when_it_has_to() {
    let mut capture = Capture::new(4);
    assert_eq!(
        capture.next_reading(Reading::Look, Arrival::Stop(true)),
        Reading::Over
    );
    assert_eq!(
        capture.next_reading(Reading::Read, Arrival::Failed),
        Reading::Over
    );
    assert_eq!(
        capture.next_reading(Reading::Wait, Arrival::Bytes(b"x")),
        Reading::Wait
    );
    assert_eq!(capture.output(), "");
}

/// A command that prints, and ends with an exit code after some moments or runs until it is killed.
struct Script {
    prints: &'static [u8],
    ends: Option<(u64, i32)>,
    /// When someone asks the command to stop, and whether that is just before it is polled.
    stopped: Option<(u64, bool)>,
}

/// Plays a command. A moment takes 20 milliseconds.
fn play(script: &Script, canceller: &mut Canceller, limit: usize, timeout: Option<u32>) -> ExecOutcome {
    let timeout = timeout.map(|millis| Elapsed::new(0, millis * 1_000_000).unwrap());
    let mut capture = Capture::new(limit);
    for chunk in script.prints.chunks(1000) {
        capture.take(chunk);
    }
    canceller.set_group(41);
    let mut killed = false;
    let mut moment: u64 = 0;
    let mut now = Watch::Ask;
    for _ in 0..10_000 {
        let due = |poll: bool| script.stopped.is_some_and(|(at, late)| at <= moment && (poll || !late));
        let report = match now {
            Watch::Ask => {
                if due(false) {
                    killed |= canceller.cancel() == Some(41);
                }
                Report::Asked(canceller.is_cancelled())
            }
            Watch::Poll => {
                if due(true) {
                    killed |= canceller.cancel() == Some(41);
                }
                let status: Result<Option<Option<i32>>, String> = canceller.poll_with_group(|| {
                    Ok(match script.ends {
                        _ if killed => Some(None),
                        Some((at, code)) if at <= moment => Some(Some(code)),
                        _ => None,
                    })
                });
                Report::Polled(status.unwrap())
            }
            Watch::Clock => Report::Clocked(Elapsed::new(0, moment as u32 * 20_000_000).unwrap()),
            Watch::Rest => {
                moment += 1;
                Report::Rested
            }
            Watch::Kill(_) => {
                canceller.forget();
                Report::Reaped(None)
            }
            Watch::Over(ending) => {
                let at = Timestamp::new(2026, 8, 14, 9, 53, 32, 0).unwrap();
                let took = Elapsed::new(0, moment as u32 * 20_000_000).unwrap();
                return outcome_of(at, took, ending, canceller.is_cancelled(), &capture);
            }
        };
        now = next_watch(now, report, timeout);
    }
    panic!("the command never ends");
}

#[test]
fn captures_stdout() {
    let script = Script { prints: b"hello\n", ends: Some((1, 0)), stopped: None };
    let outcome = play(&script, &mut Canceller::new(), 1024, Some(900));
    assert_eq!(outcome.output, "hello\n");
    assert_eq!(outcome.exit_code, Some(0));
    assert!(outcome.is_success());
    assert!(!outcome.truncated);
}

#[test]
fn reports_exit_code() {
    let script = Script { prints: b"", ends: Some((0, 3)), stopped: None };
    let outcome = play(&script, &mut Canceller::new(), 1024, None);
    assert_eq!(outcome.exit_code, Some(3));
    assert!(!outcome.is_success());
    assert_eq!(outcome.status_text(), "exit 3");
}

#[test]
fn kills_the_command_on_timeout() {
    let script = Script { prints: b"", ends: None, stopped: None };
    let outcome = play(&script, &mut Canceller::new(), 1024, Some(200));
    assert!(outcome.timed_out);
    assert_eq!(outcome.status_text(), "timeout");
    assert_eq!(outcome.duration, Elapsed::new(0, 200_000_000).unwrap());
}

#[test]
fn a_cancel_stops_a_running_command() {
    let script = Script { prints: b"before\n", ends: None, stopped: Some((10, false)) };
    let outcome = play(&script, &mut Canceller::new(), 1024, None);
    assert!(outcome.cancelled);
    assert!(!outcome.is_success());
    assert_eq!(outcome.status_text(), "cancelled");
    assert!(outcome.output.contains("before"));
}

#[test]
fn a_cancel_asked_for_before_the_run_still_stops_it() {
    let mut canceller = Canceller::new();
    assert_eq!(canceller.cancel(), None);
    let script = Script { prints: b"", ends: None, stopped: None };
    let outcome = play(&script, &mut canceller, 1024, None);
    assert!(outcome.cancelled);
}

#[test]
fn the_group_is_forgotten_together_with_the_reaping() {
    let mut canceller = Canceller::new();
    let done = Script { prints: b"done\n", ends: Some((2, 0)), stopped: None };
    play(&done, &mut canceller, 1024, None);
    assert_eq!(canceller.group(), 0);

    let mut canceller = Canceller::new();
    let endless = Script { prints: b"", ends: None, stopped: None };
    play(&endless, &mut canceller, 1024, Some(200));
    assert_eq!(canceller.group(), 0, "the timeout path forgot to clear it");
}

#[test]
fn a_cancel_that_lands_between_the_check_and_the_poll_is_still_a_cancel() {
    let script = Script { prints: b"", ends: None, stopped: Some((10, true)) };
    let outcome = play(&script, &mut Canceller::new(), 1024, None);
    assert!(outcome.cancelled);
    assert_eq!(outcome.status_text(), "cancelled");
}

#[test]
fn an_unused_canceller_changes_nothing() {
    let mut canceller = Canceller::new();
    let script = Script { prints: b"hello\n", ends: Some((0, 0)), stopped: None };
    let outcome = play(&script, &mut canceller, 1024, None);
    assert!(!outcome.cancelled);
    assert!(outcome.is_success());
    assert!(!canceller.is_cancelled());
}

#[test]
fn truncates_output_beyond_the_limit() {
    let script = Script { prints: &[b'7'; 100_000], ends: Some((0, 0)), stopped: None };
    let outcome = play(&script, &mut Canceller::new(), 1024, None);
    assert!(outcome.truncated);
    assert!(outcome.output.len() <= 1024);
}
