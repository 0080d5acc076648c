use runandlog::exec::ExecOptions;
use runandlog::paths::FsPath;
use runandlog::session::Session;
use runandlog::time::{Elapsed, Timestamp};
use runandlog::tui::{
    cell_state, command_style, is_cancel_key, is_quit_key, marker_color, run_label, Action, App,
    Batch, CellState, Color, Conclusion, KeyCode, KeyPress, StyledLine, TextStyle,
};
use runandlog::ExecOutcome;

fn key(code: KeyCode, control: bool) -> KeyPress {
    KeyPress { code, control }
}

fn app(md: &str) -> App {
    let options = ExecOptions::new(FsPath::from_text("/tmp"), None);
    App::new(Session::load(FsPath::from_text("/tmp/n.md"), md, options, 50))
}

fn outcome(exit_code: i32) -> ExecOutcome {
    ExecOutcome {
        started_at: Timestamp::new(2026, 8, 14, 9, 53, 32, 0).unwrap(),
        duration: Elapsed::from_secs(1),
        exit_code: Some(exit_code),
        output: String::new(),
        timed_out: false,
        cancelled: false,
        truncated: false,
    }
}

fn texts(lines: &[StyledLine]) -> Vec<String> {
    lines
        .iter()
        .map(|line| {
            line.parts
                .iter()
                .map(|part| part.text.as_str())
                .collect::<Vec<_>>()
                .concat()
        })
        .collect()
}

#[test]
fn recognises_the_documented_quit_keys() {
    assert!(is_quit_key(key(KeyCode::Char('q'), false)));
    assert!(is_quit_key(key(KeyCode::Esc, false)));
    assert!(is_quit_key(key(KeyCode::Char('c'), true)));
}

#[test]
fn a_cell_that_already_ran_says_so() {
    assert_eq!(run_label(true).trim(), "Re-run");
    assert_eq!(run_label(false).trim(), "Run");
    assert_eq!(run_label(true).len(), run_label(false).len());
}

#[test]
fn a_cell_that_has_not_run_in_this_session_looks_untouched() {
    assert_eq!(cell_state(0, None, None), CellState::Waiting);
}

#[test]
fn the_cell_being_run_is_told_apart_from_the_ones_already_run() {
    assert_eq!(cell_state(1, Some(1), None), CellState::Running);
    assert_eq!(cell_state(1, Some(1), Some(true)), CellState::Running);
    assert_eq!(cell_state(0, Some(1), Some(true)), CellState::Done);
    assert_eq!(cell_state(0, Some(1), Some(false)), CellState::Failed);
}

#[test]
fn every_state_has_a_colour_of_its_own() {
    let colors = [
        marker_color(CellState::Waiting),
        marker_color(CellState::Running),
        marker_color(CellState::Done),
        marker_color(CellState::Failed),
    ];
    for (index, color) in colors.iter().enumerate() {
        assert!(
            !colors[index + 1..].contains(color),
            "two states share {color:?}"
        );
    }
}

#[test]
fn a_finished_cell_is_dimmed_and_the_rest_are_not() {
    assert_eq!(command_style(CellState::Waiting), TextStyle::default());
    assert_eq!(command_style(CellState::Running), TextStyle::default());
    assert_ne!(command_style(CellState::Done), TextStyle::default());
    assert_ne!(command_style(CellState::Failed), TextStyle::default());
}

#[test]
fn a_plain_c_is_not_a_quit_key() {
    assert!(!is_quit_key(key(KeyCode::Char('c'), false)));
    assert!(!is_quit_key(key(KeyCode::Char('r'), false)));
    assert!(!is_quit_key(key(KeyCode::Char('a'), false)));
}

#[test]
fn only_one_key_stops_a_command() {
    assert!(is_cancel_key(key(KeyCode::Char('c'), true)));
    assert!(!is_cancel_key(key(KeyCode::Char('c'), false)));
    assert!(!is_cancel_key(key(KeyCode::Char('q'), true)));
    assert!(!is_cancel_key(key(KeyCode::Esc, false)));
}

const TWO: &str = "```sh\na\nb\n```\n\n```sh out=o.txt\nc\n```\n\n<!-- runandlog:begin -->\nRan\n\nx\n<!-- runandlog:end -->\n";

#[test]
fn cells_are_shown_with_their_results() {
    let app = app(TWO);
    let rendered = app.render_lines();
    assert_eq!(
        texts(&rendered.lines),
        vec![
            " [1] > Run    ",
            "   > a",
            "   > b",
            "",
            " [2] > Re-run   -> o.txt",
            "   > c",
            "",
            "   Ran",
            "   ",
            "   x",
            "",
        ]
    );
    assert_eq!(rendered.spans, vec![(0, 4), (4, 11)]);
    let marker = rendered.lines[0].parts[0].style;
    assert_eq!(marker.fg, Some(Color::Black));
    assert_eq!(marker.bg, Some(Color::Green));
    assert!(marker.bold);
    let other = rendered.lines[4].parts[0].style;
    assert_eq!(other.fg, Some(Color::Green));
    assert_eq!(other.bg, None);
    assert_eq!(rendered.lines[7].parts[0].style.fg, Some(Color::Gray));
}

#[test]
fn a_document_without_cells_says_so() {
    let app = app("# nothing\n");
    let rendered = app.render_lines();
    assert_eq!(
        texts(&rendered.lines),
        vec!["  No shell / sh / bash / zsh code block found."]
    );
    assert!(rendered.spans.is_empty());
    assert_eq!(app.status, "No runnable cells. Press q to quit.");
}

#[test]
fn a_running_cell_shows_its_last_lines_in_place_of_its_result() {
    let mut app = app(TWO);
    app.begin_run(1);
    assert_eq!(
        texts(&app.render_lines().lines[4..]),
        vec![
            " [2] > Re-run   -> o.txt",
            "   > c",
            "",
            "   (no output yet)",
            "",
            "",
            "",
        ]
    );
    app.collect_output("1\n2\n");
    app.collect_output("3\n4\n5");
    assert_eq!(
        texts(&app.live_lines()),
        vec!["", "   3", "   4", "   5"]
    );
    assert_eq!(app.status_line(), "| running cell 2");
    app.tick();
    assert_eq!(app.status_line(), "/ running cell 2");
    app.tick();
    app.tick();
    assert_eq!(app.status_line(), "\\ running cell 2");
    app.tick();
    assert_eq!(app.status_line(), "| running cell 2");
    app.end_run();
    assert!(app.live.is_empty());
    assert_eq!(app.running, None);
    assert_eq!(
        app.status_line(),
        "Enter/r: run  a: run all  j/k: move  R: reload  q: quit"
    );
}

#[test]
fn keys_move_the_selection_between_the_first_and_the_last_cell() {
    let mut app = app(TWO);
    let press = |app: &mut App, code: KeyCode| app.handle_key(key(code, false));
    assert_eq!(press(&mut app, KeyCode::Char('k')), Action::Nothing);
    assert_eq!(app.selected, 0);
    press(&mut app, KeyCode::Down);
    assert_eq!(app.selected, 1);
    press(&mut app, KeyCode::Char('j'));
    assert_eq!(app.selected, 1);
    press(&mut app, KeyCode::Up);
    assert_eq!(app.selected, 0);
    press(&mut app, KeyCode::Char('G'));
    assert_eq!(app.selected, 1);
    press(&mut app, KeyCode::PageDown);
    press(&mut app, KeyCode::PageDown);
    assert_eq!(app.scroll, 20);
    press(&mut app, KeyCode::PageUp);
    assert_eq!(app.scroll, 10);
    press(&mut app, KeyCode::Home);
    assert_eq!((app.selected, app.scroll), (0, 0));
    press(&mut app, KeyCode::PageUp);
    assert_eq!(app.scroll, 0);
    press(&mut app, KeyCode::End);
    assert_eq!(press(&mut app, KeyCode::Enter), Action::Run(1));
    assert_eq!(press(&mut app, KeyCode::Char('r')), Action::Run(1));
    assert_eq!(press(&mut app, KeyCode::Char('R')), Action::Reload);
    assert_eq!(press(&mut app, KeyCode::Char('a')), Action::RunAll(2));
    assert_eq!(press(&mut app, KeyCode::Other), Action::Nothing);
    assert!(!app.quit);
    assert_eq!(press(&mut app, KeyCode::Esc), Action::Nothing);
    assert!(app.quit);
}

#[test]
fn there_is_nothing_to_run_without_cells() {
    let mut app = app("# nothing\n");
    assert_eq!(app.handle_key(key(KeyCode::Enter, false)), Action::Nothing);
    app.select(1);
    assert_eq!(app.selected, 0);
    app.select(-1);
    assert_eq!(app.selected, 0);
}

#[test]
fn while_a_command_runs_only_quitting_counts() {
    let mut app = app(TWO);
    assert!(!app.handle_key_while_running(key(KeyCode::Char('j'), false)));
    assert_eq!(app.selected, 0);
    assert!(!app.quit);
    assert!(!app.handle_key_while_running(key(KeyCode::Char('q'), false)));
    assert!(app.quit);
    app.quit = false;
    assert!(app.handle_key_while_running(key(KeyCode::Char('c'), true)));
    assert!(app.quit);
}

#[test]
fn the_selected_cell_stays_on_screen() {
    let mut app = app(TWO);
    let rendered = app.render_lines();
    app.viewport = 7;
    app.selected = 1;
    app.adjust_scroll(&rendered);
    assert_eq!(app.scroll, 4);
    app.viewport = 3;
    app.adjust_scroll(&rendered);
    assert_eq!(app.scroll, 4);
    app.selected = 0;
    app.adjust_scroll(&rendered);
    assert_eq!(app.scroll, 0);
    app.viewport = 8;
    app.selected = 1;
    app.adjust_scroll(&rendered);
    assert_eq!(app.scroll, 3);
    app.selected = 9;
    app.scroll = 99;
    app.adjust_scroll(&rendered);
    assert_eq!(app.scroll, 10);
}

#[test]
fn conclusions_change_the_colours_and_the_status() {
    let mut app = app(TWO);
    let done = outcome(0);
    let failed = outcome(1);
    assert_eq!(app.conclude(0, Conclusion::Written(&done)), Batch::Continue);
    assert_eq!(app.status, "Cell 1 done (exit 0)");
    assert_eq!(app.conclude(1, Conclusion::Written(&failed)), Batch::Continue);
    assert_eq!(app.finished.get(&0), Some(&true));
    assert_eq!(app.finished.get(&1), Some(&false));
    assert_eq!(
        app.render_lines().lines[1].parts[1].style.fg,
        Some(Color::DarkGray)
    );
    assert_eq!(app.render_lines().lines[4].parts[0].style.fg, Some(Color::Red));
    assert_eq!(app.conclude(0, Conclusion::Refused("no")), Batch::Stop);
    assert_eq!(app.status, "Writing the result failed: no");
    app.selected = 1;
    app.reload_after_conflict(Some("```sh\na\n```\n"));
    assert_eq!(app.status, "Writing the result failed: no");
    assert_eq!(app.selected, 0);
    assert!(app.finished.is_empty());
    assert_eq!(app.conclude(0, Conclusion::NotStarted("gone")), Batch::Continue);
    assert_eq!(app.status, "The run failed: gone");
    assert_eq!(app.finished.get(&0), Some(&false));
    app.reload_after_conflict(None);
    assert_eq!(app.finished.len(), 1);
}

#[test]
fn reloading_forgets_which_cells_have_run() {
    let mut app = app(TWO);
    let done = outcome(0);
    app.conclude(1, Conclusion::Written(&done));
    app.reload(Err("unreadable"));
    assert_eq!(app.status, "Reload failed: unreadable");
    assert_eq!(app.finished.len(), 1);
    app.reload(Ok("```sh\nnew\n```\n"));
    assert_eq!(app.status, "Reloaded.");
    assert!(app.finished.is_empty());
    assert_eq!(app.session.command_of(0), "new\n");
}

#[test]
fn running_all_cells_ends_when_quitting() {
    let mut app = app(TWO);
    assert!(app.next_of_all(0, 2));
    assert!(app.next_of_all(1, 2));
    assert_eq!(app.selected, 1);
    assert!(!app.next_of_all(2, 2));
    app.quit = true;
    assert!(!app.next_of_all(0, 2));
    assert_eq!(app.selected, 1);
}

#[test]
fn the_borders_are_not_part_of_what_is_shown() {
    let mut app = app(TWO);
    app.resize(24);
    assert_eq!(app.viewport, 22);
    app.resize(3);
    assert_eq!(app.viewport, 1);
    app.resize(0);
    assert_eq!(app.viewport, 1);
}
