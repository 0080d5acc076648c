use runandlog::cancel::Cancellers;
use runandlog::exec::ExecOptions;
use runandlog::gui::{
    begin_cell, begin_reload, conclude_cell, display_reason, document_view, output_chunk, window_title,
    Operation, Run, RunAll, ALREADY_RUNNING, NOT_RELOADED,
};
use runandlog::paths::FsPath;
use runandlog::session::Session;
use runandlog::time::{Elapsed, Timestamp};
use runandlog::ExecOutcome;

fn session(md: &str) -> Session {
    let options = ExecOptions::new(FsPath::from_text("/tmp"), None);
    Session::load(FsPath::from_text("/tmp/doc.md"), md, options, 50)
}

fn outcome(cancelled: bool) -> ExecOutcome {
    ExecOutcome {
        started_at: Timestamp::new(2026, 8, 14, 9, 53, 32, 0).unwrap(),
        duration: Elapsed::from_secs(1),
        exit_code: if cancelled { None } else { Some(0) },
        output: String::new(),
        timed_out: false,
        cancelled,
        truncated: false,
    }
}

#[test]
fn the_title_shows_the_file_name() {
    assert_eq!(
        window_title(&FsPath::from_text("/tmp/notes/exam.md")),
        "Run and Log - exam.md"
    );
}

#[test]
fn the_title_falls_back_to_the_whole_path() {
    assert_eq!(
        window_title(&FsPath::from_text("/tmp/..")),
        "Run and Log - /tmp/.."
    );
    assert_eq!(
        window_title(&FsPath::from_text("/tmp//a/../")),
        "Run and Log - /tmp//a/../"
    );
    assert_eq!(window_title(&FsPath::from_text("notes//x/")), "Run and Log - x");
}

#[test]
fn a_second_run_is_refused_while_one_is_in_flight() {
    let mut operation = Operation::idle();
    operation.acquire().unwrap();
    assert_eq!(operation.acquire(), Err(ALREADY_RUNNING));
    assert_eq!(ALREADY_RUNNING, "A command is already running.");
}

#[test]
fn the_busy_flag_is_released_when_the_guard_is_dropped() {
    let mut operation = Operation::idle();
    operation.acquire().unwrap();
    operation.release();
    assert!(operation.acquire().is_ok());
}

#[test]
fn stopping_while_idle_says_there_was_nothing_to_stop() {
    let mut operation = Operation::idle();
    assert_eq!(operation.stop(&mut Cancellers::new()), (false, None));
    assert!(!operation.is_stop_requested());
}

#[test]
fn stopping_reaches_the_run_in_flight() {
    let mut operation = Operation::idle();
    let mut cancellers = Cancellers::new();
    operation.acquire().unwrap();
    let canceller = cancellers.add_canceller();
    operation.arm(Some(canceller.clone()));

    assert!(operation.stop(&mut cancellers).0);
    assert!(cancellers.is_cancelled(canceller));
}

#[test]
fn a_stop_between_two_cells_still_stops_the_batch() {
    let mut operation = Operation::idle();
    operation.acquire().unwrap();
    operation.arm(None);
    assert_eq!(operation.stop(&mut Cancellers::new()), (true, None));
    assert!(operation.is_stop_requested());
}

#[test]
fn a_stop_that_beats_the_command_to_the_start_is_honoured() {
    let mut operation = Operation::idle();
    operation.acquire().unwrap();
    let mut cancellers = Cancellers::new();
    operation.stop(&mut cancellers);
    let canceller = cancellers.add_canceller();
    assert!(operation.arm(Some(canceller)));
}

#[test]
fn a_stop_does_not_carry_over_to_the_next_run() {
    let mut operation = Operation::idle();
    let mut cancellers = Cancellers::new();
    operation.acquire().unwrap();
    let stopped = cancellers.add_canceller();
    operation.arm(Some(stopped.clone()));
    operation.stop(&mut cancellers);
    operation.arm(None);
    operation.release();

    operation.acquire().unwrap();
    let next = cancellers.add_canceller();
    assert!(!operation.arm(Some(next.clone())));
    assert!(!cancellers.is_cancelled(next));
    assert!(cancellers.is_cancelled(stopped));
    assert!(!operation.is_stop_requested());
    assert_eq!(operation.acquire(), Err(ALREADY_RUNNING));
    assert_eq!(operation.canceller, Some(next));
}

#[test]
fn a_stop_names_the_group_that_runs() {
    let mut operation = Operation::idle();
    let mut cancellers = Cancellers::new();
    operation.acquire().unwrap();
    let running = cancellers.add_canceller();
    let other = cancellers.add_canceller();
    cancellers.set_group(running, 41);
    cancellers.set_group(other, 42);
    operation.arm(Some(running));
    assert_eq!(operation.stop(&mut cancellers), (true, Some(41)));
    assert_eq!(cancellers.group(running), 41);
    assert!(!cancellers.is_cancelled(other));
}

#[test]
fn the_view_carries_what_the_window_draws() {
    let session = session("# notes\n\n```shell\ndate\n```\n\n```shell out=log.txt\nls\n```\n");
    let view = document_view(&session, "/tmp/doc.md");

    assert_eq!(view.path, "/tmp/doc.md");
    assert_eq!(view.cells.len(), 2);
    assert_eq!(view.cells[0].index, 0);
    assert_eq!(view.cells[0].number, 1);
    assert_eq!(view.cells[0].lang, "shell");
    assert_eq!(view.cells[0].command, "date\n");
    assert_eq!(view.cells[0].out_file, None);
    assert_eq!(view.cells[0].result, None);
    assert_eq!(view.cells[1].number, 2);
    assert_eq!(view.cells[1].out_file.as_deref(), Some("log.txt"));
}

#[test]
fn the_view_carries_the_previous_result() {
    let session = session(
        "```shell\ndate\n```\n\n<!-- runandlog:begin -->\nRan result: earlier\n<!-- runandlog:end -->\n",
    );
    let view = document_view(&session, "doc.md");
    assert_eq!(view.cells[0].result.as_deref(), Some("Ran result: earlier"));
}

#[test]
fn a_missing_display_is_reported_instead_of_crashing_gtk() {
    assert!(display_reason(None, None).is_some());
}

#[test]
fn either_display_variable_is_enough() {
    assert!(display_reason(Some(b":0"), None).is_none());
    assert!(display_reason(None, Some(b"wayland-0")).is_none());
}

#[test]
fn an_empty_value_does_not_count_as_a_display() {
    assert!(display_reason(Some(b""), Some(b"")).is_some());
}

#[test]
fn a_cell_that_does_not_exist_is_refused_before_anything_is_armed() {
    let session = session("```sh\na\n```\n");
    let mut operation = Operation::idle();
    let mut cancellers = Cancellers::new();
    operation.acquire().unwrap();
    assert_eq!(
        begin_cell(&mut operation, &mut cancellers, &session, 1),
        Err("There is no cell 2.".to_string())
    );
    assert_eq!(operation.canceller, None);
    let first = begin_cell(&mut operation, &mut cancellers, &session, 0).unwrap();
    assert_eq!(operation.canceller, Some(first));
    assert!(!cancellers.is_cancelled(first));
    operation.stop(&mut cancellers);
    let second = begin_cell(&mut operation, &mut cancellers, &session, 0).unwrap();
    assert_ne!(first, second);
    assert!(cancellers.is_cancelled(second));
}

#[test]
fn every_way_a_run_goes_wrong_is_told() {
    let done = outcome(false);
    let report = conclude_cell(3, Run::Written(&done)).unwrap();
    assert_eq!(report.index, 3);
    assert_eq!(report.status, "exit 0");
    assert!(report.success);
    assert!(!report.cancelled);
    assert_eq!(
        conclude_cell(0, Run::Refused("x")).unwrap_err(),
        "Writing the result failed: x"
    );
    assert_eq!(
        conclude_cell(0, Run::NotStarted("x")).unwrap_err(),
        "The run failed: x"
    );
    assert_eq!(
        conclude_cell(0, Run::Died("x")).unwrap_err(),
        "The worker thread died unexpectedly: x"
    );
}

#[test]
fn running_all_cells_goes_on_until_it_is_stopped() {
    let done = outcome(false);
    let stopped = outcome(true);
    let mut all = RunAll::new(3);
    assert_eq!(all.next(false), Some(0));
    all.ran(conclude_cell(0, Run::Written(&done)).unwrap());
    assert_eq!(all.next(false), Some(1));
    all.ran(conclude_cell(1, Run::Written(&stopped)).unwrap());
    assert_eq!(all.next(false), None);
    let report = all.finish(false);
    assert_eq!(report.reports.len(), 2);
    assert!(report.stopped);
}

#[test]
fn a_stop_before_a_cell_or_after_the_last_one_counts() {
    let done = outcome(false);
    let mut all = RunAll::new(2);
    assert_eq!(all.next(true), None);
    assert!(all.stopped);
    let mut all = RunAll::new(1);
    assert_eq!(all.next(false), Some(0));
    all.ran(conclude_cell(0, Run::Written(&done)).unwrap());
    assert_eq!(all.next(true), None);
    assert!(!all.stopped);
    assert!(all.finish(true).stopped);
}

#[test]
fn long_pieces_of_output_are_cut_to_their_end() {
    let long = "x".repeat(70_000) + "end";
    let sent = output_chunk(2, &long);
    assert_eq!(sent.index, 2);
    assert_eq!(sent.text.len(), 65_536);
    assert!(sent.text.ends_with("end"));
    assert_eq!(output_chunk(0, "short").text, "short");
}

#[test]
fn reloading_is_refused_while_a_command_is_running() {
    let mut operation = Operation::idle();
    operation.acquire().unwrap();
    assert_eq!(begin_reload(&mut operation), Err(NOT_RELOADED));
    assert!(operation.busy);
}

#[test]
fn reloading_works_again_once_the_run_is_over() {
    let mut operation = Operation::idle();
    operation.acquire().unwrap();
    operation.release();
    assert!(begin_reload(&mut operation).is_ok());
}

#[test]
fn reloading_picks_up_an_external_edit() {
    let mut session = session("# no cells\n");
    assert!(document_view(&session, "doc.md").cells.is_empty());
    session.reload("```shell\ndate\n```\n");
    let view = document_view(&session, "doc.md");
    assert_eq!(view.cells.len(), 1);
    assert_eq!(view.cells[0].command, "date\n");
}
