use runandlog::cli::{
    announce, closing_line, cwd_for, exec_options, failure_code, first_line, list_lines, mode_of,
    no_such_cell_message, signal_exit_code, targets, Batch, Mode, Next,
};
use runandlog::paths::FsPath;
use runandlog::time::{Elapsed, Timestamp};
use runandlog::{Document, ExecOutcome};

#[test]
fn the_exit_code_names_the_signal_that_stopped_the_run() {
    assert_eq!(signal_exit_code(2), 130);
    assert_eq!(signal_exit_code(15), 143);
}

#[test]
fn shows_ellipsis_for_multi_line_commands() {
    assert_eq!(first_line("ls /opt\nls /tmp\n"), "ls /opt ...");
    assert_eq!(first_line("date\n"), "date");
    assert_eq!(first_line("\n\n"), "");
}

#[test]
fn blank_lines_of_a_command_are_passed_over() {
    assert_eq!(first_line("\n  \t\n  date  \n\n"), "date");
    assert_eq!(first_line("\r\n a\r\n\u{3000}\r\nb"), "a ...");
}

#[test]
fn exit_codes_keep_the_lowest_eight_bits() {
    assert_eq!(signal_exit_code(0), 128);
    assert_eq!(signal_exit_code(127), 255);
    assert_eq!(signal_exit_code(128), 0);
    assert_eq!(signal_exit_code(-129), 255);
    assert_eq!(failure_code(0), 1);
    assert_eq!(failure_code(15), 143);
}

#[test]
fn the_flags_decide_what_to_do() {
    assert_eq!(mode_of(true, true, true, &vec![1]), Mode::Gui);
    assert_eq!(mode_of(false, true, true, &vec![]), Mode::List);
    assert_eq!(mode_of(false, false, true, &vec![]), Mode::Run);
    assert_eq!(mode_of(false, false, false, &vec![2]), Mode::Run);
    assert_eq!(mode_of(false, false, false, &vec![]), Mode::Tui);
}

#[test]
fn targets_are_counted_from_zero() {
    assert_eq!(targets(true, &vec![9], 3), Ok(vec![0, 1, 2]));
    assert_eq!(targets(true, &vec![], 0), Ok(vec![]));
    assert_eq!(targets(false, &vec![2, 1, 2], 2), Ok(vec![1, 0, 1]));
    assert_eq!(targets(false, &vec![1, 3, 0], 2), Err(3));
    assert_eq!(targets(false, &vec![0], 2), Err(0));
    assert_eq!(
        no_such_cell_message(3, 2),
        "no such cell: 3 (the file has 2 cells)"
    );
}

#[test]
fn the_list_shows_every_cell() {
    let doc = Document::parse("```sh\na\nb\n```\n\n```sh out=x.txt\nc\n```\n");
    assert_eq!(list_lines(&doc, "n.md"), vec!["[1] a ...", "[2] c -> x.txt"]);
    let empty = Document::parse("# nothing\n");
    assert_eq!(list_lines(&empty, "n.md"), vec!["no runnable cells in n.md"]);
    assert_eq!(announce(1, "c\n"), "[2] c");
}

#[test]
fn commands_run_beside_the_file_unless_told_otherwise() {
    let cwd = |asked: Option<&str>, file: &str| {
        cwd_for(asked.map(FsPath::from_text), &FsPath::from_text(file)).to_bytes()
    };
    assert_eq!(cwd(Some("/x"), "/a/n.md"), b"/x");
    assert_eq!(cwd(None, "/a/n.md"), b"/a");
    assert_eq!(cwd(None, "/n.md"), b"/");
    assert_eq!(cwd(None, "n.md"), b".");
    assert_eq!(cwd(None, "/"), b".");
    assert_eq!(cwd(None, "a//b/n.md"), b"a//b");
}

#[test]
fn the_shell_comes_from_the_flag_then_the_environment() {
    let path = FsPath::from_text;
    let both = exec_options(path("/w"), Some(path("/bin/zsh")), Some(path("/bin/ksh")), None);
    assert_eq!(both.shell, path("/bin/ksh"));
    let named = exec_options(path("/w"), Some(path("/bin/zsh")), None, Some(7));
    assert_eq!(named.shell, path("/bin/zsh"));
    assert_eq!(named.timeout, Some(Elapsed::from_secs(7)));
    let bare = exec_options(path("/w"), None, None, None);
    assert_eq!(bare.shell, path("/bin/sh"));
    assert_eq!(bare.cwd, path("/w"));
    assert_eq!(bare.timeout, None);
    assert_eq!(bare.max_output_bytes, 8 * 1024 * 1024);
}

#[test]
fn a_batch_runs_every_target_and_reports_a_failure() {
    let mut batch = Batch::new();
    assert_eq!(batch.next(2, 0), Next::Run(0));
    batch.ran(false);
    assert_eq!(batch.next(2, 0), Next::Run(1));
    batch.ran(true);
    assert_eq!(batch.next(2, 0), Next::Exit(1));
    assert_eq!(Batch::new().next(0, 0), Next::Exit(0));
}

#[test]
fn a_signal_stops_a_batch_before_the_next_cell_and_at_its_end() {
    let mut batch = Batch::new();
    batch.ran(true);
    assert_eq!(batch.next(2, 2), Next::Interrupted(130));
    batch.ran(true);
    assert_eq!(batch.next(2, 15), Next::Interrupted(143));
}

#[test]
fn the_end_of_a_cell_is_announced() {
    let outcome = ExecOutcome {
        started_at: Timestamp::new(2026, 8, 14, 9, 53, 32, 0).unwrap(),
        duration: Elapsed::from_secs(1),
        exit_code: Some(3),
        output: String::new(),
        timed_out: false,
        cancelled: false,
        truncated: false,
    };
    assert_eq!(closing_line(&outcome), "--- exit 3");
}
