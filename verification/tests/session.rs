use runandlog::apply::{next_stage, Event, Stage};
use runandlog::atomic::{candidate, next_step, Step, StepResult, ATTEMPTS};
use runandlog::destination::{is_safe_out_file, next_inquiry, Finding, Inquiry};
use runandlog::exec::ExecOptions;
use runandlog::paths::FsPath;
use runandlog::session::{Session, CHANGED};
use runandlog::time::{Elapsed, Timestamp};
use runandlog::ExecOutcome;

fn session(md: &str, max_inline_lines: usize) -> Session {
    let options = ExecOptions::new(FsPath::from_text("/notes"), None);
    Session::load(FsPath::from_text("/notes/note.md"), md, options, max_inline_lines)
}

fn outcome(output: &str, exit_code: Option<i32>) -> ExecOutcome {
    ExecOutcome {
        started_at: Timestamp::new(2026, 8, 14, 9, 53, 32, 0).unwrap(),
        duration: Elapsed::from_secs(1),
        exit_code,
        output: output.to_string(),
        timed_out: false,
        cancelled: false,
        truncated: false,
    }
}

/// A file system of links, directories and files, under absolute names.
struct Disk {
    note: String,
    directories: Vec<&'static str>,
    /// A name, and what it resolves to.
    links: Vec<(&'static str, &'static str)>,
    files: Vec<(String, String)>,
    /// Whether separate files can be written.
    writable: bool,
}

impl Disk {
    fn new(note: &str) -> Disk {
        Disk {
            note: note.to_string(),
            directories: vec!["/", "/notes"],
            links: vec![],
            files: vec![],
            writable: true,
        }
    }

    fn resolve(&self, path: &str) -> String {
        for (name, target) in &self.links {
            if path == *name {
                return target.to_string();
            }
            if let Some(rest) = path.strip_prefix(&format!("{name}/")) {
                return format!("{target}/{rest}");
            }
        }
        path.to_string()
    }

    /// Whether a directory has this name. What ends in a slash or a dot may be one.
    fn holds_directory(&self, path: &str) -> bool {
        let name = path.strip_suffix("/.").unwrap_or(path);
        let name = name.strip_suffix('/').unwrap_or(name);
        let name = self.resolve(name);
        self.directories.contains(&name.as_str())
    }

    fn holds(&self, path: &str) -> bool {
        let file = self.resolve(path);
        file == "/notes/note.md"
            || self.holds_directory(path)
            || self.files.iter().any(|(name, _)| *name == file)
    }

    fn apply(&mut self, session: &mut Session, index: usize, outcome: &ExecOutcome) -> bool {
        let name = |path: &FsPath| String::from_utf8(path.to_bytes()).unwrap();
        let mut stage = Stage::Read;
        for _ in 0..100 {
            let event = match &stage {
                Stage::Read => Event::Text(self.note.clone()),
                Stage::Check(Inquiry::Directory { target }) => {
                    Event::Found(Finding::Is(self.holds_directory(&name(target))))
                }
                Stage::Check(Inquiry::Base { .. }) => {
                    Event::Found(Finding::Resolved(FsPath::from_text("/notes")))
                }
                Stage::Check(Inquiry::Existence { existing, .. }) => {
                    Event::Found(Finding::Is(self.holds(&name(existing))))
                }
                Stage::Check(Inquiry::Resolution { existing, .. }) => Event::Found(
                    Finding::Resolved(FsPath::from_text(&self.resolve(&name(existing)))),
                ),
                Stage::Check(Inquiry::Settled(_)) => unreachable!(),
                Stage::Store { sidecar, .. } => {
                    let stored = self.writable && self.store(&sidecar.path, &sidecar.contents);
                    Event::Stored(stored)
                }
                Stage::Write(text) => {
                    self.note = text.clone();
                    Event::Written
                }
                Stage::Done => return true,
                Stage::Refused => return false,
            };
            stage = next_stage(session, index, outcome, stage, event);
        }
        panic!("the outcome is never written");
    }

    /// Writes a file by way of a temporary one. The rename fails where a directory stands, and onto
    /// a name that only a directory can have.
    fn store(&mut self, path: &FsPath, contents: &str) -> bool {
        let name = |path: &FsPath| String::from_utf8(path.to_bytes()).unwrap();
        let target = name(path);
        let mut step = Step::Create(0);
        loop {
            let temp = |attempt: u32| name(&candidate(path, 42, attempt));
            let result = match step {
                Step::Create(attempt) if self.holds(&temp(attempt)) => StepResult::Taken,
                Step::Create(attempt) => {
                    self.files.push((temp(attempt), String::new()));
                    StepResult::Worked
                }
                Step::Fill(_) if self.holds_directory(&target) => StepResult::Error,
                Step::Fill(_) if target.ends_with('/') => StepResult::Error,
                Step::Fill(attempt) => {
                    self.files.retain(|(file, _)| *file != temp(attempt) && *file != target);
                    self.files.push((target.clone(), contents.to_string()));
                    StepResult::Worked
                }
                Step::Remove(attempt) => {
                    self.files.retain(|(file, _)| *file != temp(attempt));
                    StepResult::Worked
                }
                Step::Done => return true,
                Step::Failed | Step::Exhausted => return false,
            };
            step = next_step(step, result);
        }
    }

    fn file(&self, path: &str) -> Option<&str> {
        self.files
            .iter()
            .rev()
            .find(|(name, _)| name == path)
            .map(|(_, contents)| contents.as_str())
    }
}

fn run(md: &str, max_inline_lines: usize, output: &str) -> Disk {
    let mut disk = Disk::new(md);
    let mut session = session(md, max_inline_lines);
    assert!(disk.apply(&mut session, 0, &outcome(output, Some(0))));
    assert_eq!(session.doc().text, disk.note);
    disk
}

#[test]
fn writes_the_result_back_into_the_markdown() {
    let text = run("# note\n\n```shell\necho hello\n```\n\ntail\n", 50, "hello\n").note;
    assert!(text.contains("<!-- runandlog:begin -->"));
    assert!(text.contains("```text\nhello\n```"));
    assert!(text.ends_with("tail\n"));
}

#[test]
fn a_cancelled_run_still_writes_back_what_the_command_printed() {
    let md = "```shell\necho partial\nsleep 30\n```\n";
    let mut disk = Disk::new(md);
    let mut cancelled = outcome("partial\n", None);
    cancelled.cancelled = true;
    assert!(!cancelled.is_success());
    assert!(disk.apply(&mut session(md, 50), 0, &cancelled));
    assert!(disk.note.contains("(cancelled,"));
    assert!(disk.note.contains("partial"));
}

#[test]
fn rerunning_replaces_the_previous_result_instead_of_appending() {
    let md = "```shell\necho hello\n```\n";
    let mut disk = Disk::new(md);
    let mut session = session(md, 50);
    for _ in 0..3 {
        assert!(disk.apply(&mut session, 0, &outcome("hello\n", Some(0))));
    }
    assert_eq!(disk.note.matches("<!-- runandlog:begin -->").count(), 1);
    assert_eq!(disk.note.matches("<!-- runandlog:end -->").count(), 1);
    assert_eq!(
        disk.note.matches("hello").count(),
        2,
        "once in the command and once in the result"
    );
}

#[test]
fn long_output_goes_to_a_sidecar_file() {
    let output = "1\n2\n3\n4\n5\n6\n7\n8\n9\n10\n11\n12\n";
    let disk = run("```shell\nseq 1 12\n```\n", 5, output);
    assert!(disk.note.contains("[note-result-1.txt](note-result-1.txt)"));
    assert_eq!(disk.file("/notes/note-result-1.txt"), Some(output));
}

#[test]
fn designated_out_file_is_used_and_not_duplicated_in_the_result_block() {
    let md = "```shell\necho designated\n```\n\nResult:\n[out.txt](out.txt)\n";
    let disk = run(md, 50, "designated\n");
    assert_eq!(disk.file("/notes/out.txt"), Some("designated\n"));
    assert_eq!(disk.note.matches("[out.txt](out.txt)").count(), 1);
}

#[test]
fn each_cell_keeps_its_own_result() {
    let md = "```shell\necho first\n```\n\n```shell\necho second\n```\n";
    let mut disk = Disk::new(md);
    let mut session = session(md, 50);
    assert!(disk.apply(&mut session, 1, &outcome("second\n", Some(0))));
    assert!(disk.apply(&mut session, 0, &outcome("first\n", Some(0))));
    let text = &disk.note;
    assert_eq!(text.matches("<!-- runandlog:begin -->").count(), 2);
    let first = text.find("echo first").unwrap();
    let second = text.find("echo second").unwrap();
    let first_result = text.find("```text\nfirst\n```").unwrap();
    let second_result = text.find("```text\nsecond\n```").unwrap();
    assert!(first < first_result && first_result < second);
    assert!(second < second_result);
}

#[test]
fn an_external_edit_that_keeps_the_cell_is_preserved() {
    let mut session = session("```shell\necho hello\n```\n", 50);
    let mut disk = Disk::new("# An appended heading\n\n```shell\necho hello\n```\n");
    assert!(disk.apply(&mut session, 0, &outcome("hello\n", Some(0))));
    assert!(disk.note.contains("# An appended heading"));
    assert!(disk.note.contains("```text\nhello\n```"));
}

#[test]
fn an_external_edit_that_changes_the_cell_is_reported_instead_of_overwritten() {
    let mut session = session("```shell\necho hello\n```\n", 50);
    let mut disk = Disk::new("```shell\necho something-else\n```\n");
    assert!(!disk.apply(&mut session, 0, &outcome("hello\n", Some(0))));
    assert!(CHANGED.contains("changed while the command was running"));
    assert_eq!(disk.note, "```shell\necho something-else\n```\n");
    assert_eq!(session.command_of(0), "echo hello\n");
}

#[test]
fn an_identical_cell_put_before_is_an_edit_of_the_cells() {
    let mut session = session("```sh\na\n```\n", 50);
    assert!(!session.refresh_before_write("```sh\na\n```\n\n```sh\na\n```\n"));
    assert!(session.refresh_before_write("text\n\n```sh\na\n```\n"));
    assert_eq!(session.doc().text, "text\n\n```sh\na\n```\n");
}

#[test]
fn an_out_file_outside_the_markdown_directory_is_ignored() {
    let disk = run("```shell out=../escaped.txt\necho nope\n```\n", 50, "nope\n");
    assert!(disk.files.is_empty());
    assert!(disk.note.contains("```text\nnope\n```"));
}

#[test]
fn an_out_file_reached_through_a_symlinked_directory_is_ignored() {
    let md = "```shell out=logs/escaped.txt\necho nope\n```\n";
    let mut disk = Disk::new(md);
    disk.links.push(("/notes/logs", "/outside"));
    disk.directories.push("/outside");
    assert!(disk.apply(&mut session(md, 50), 0, &outcome("nope\n", Some(0))));
    assert!(disk.files.is_empty());
    assert!(disk.note.contains("```text\nnope\n```"));
}

#[test]
fn an_out_file_that_is_an_existing_directory_is_ignored() {
    let md = "```shell out=logs\necho nope\n```\n";
    let mut disk = Disk::new(md);
    disk.directories.push("/notes/logs");
    assert!(disk.apply(&mut session(md, 50), 0, &outcome("nope\n", Some(0))));
    assert!(disk.files.is_empty());
    assert!(disk.note.contains("```text\nnope\n```"));
    assert!(disk.note.contains("was ignored"));
}

#[test]
fn an_out_file_that_ends_in_a_slash_lands_inline() {
    let md = "```shell out=logs/\necho kept\n```\n";
    let rendered = session(md, 50).render_outcome(0, &outcome("kept\n", Some(0)), true);
    assert_eq!(rendered.sidecar.unwrap().path.to_bytes(), b"/notes/logs/");
    let disk = run(md, 50, "kept\n");
    assert!(disk.files.is_empty());
    assert!(disk.note.contains("```text\nkept\n```"));
    assert!(disk.note.contains("was ignored"));
}

#[test]
fn an_out_file_naming_the_markdown_directory_itself_is_ignored() {
    let disk = run("```shell out=.\necho nope\n```\n", 50, "nope\n");
    assert!(disk.files.is_empty());
    assert!(disk.note.contains("```text\nnope\n```"));
}

#[test]
fn a_designated_out_file_with_spaces_gets_a_usable_link() {
    let md = "```shell out=\"date result.txt\"\necho spaced\n```\n";
    let disk = run(md, 50, "spaced\n");
    assert_eq!(disk.file("/notes/date result.txt"), Some("spaced\n"));
    assert!(disk.note.contains("[date result.txt](<date result.txt>)"));
}

#[test]
fn an_out_file_naming_the_markdown_itself_is_ignored() {
    let disk = run("```shell out=note.md\necho nope\n```\n", 50, "nope\n");
    assert!(disk.files.is_empty());
    assert!(disk.note.contains("```shell out=note.md"), "the cell survived");
    assert!(disk.note.contains("```text\nnope\n```"));
    assert!(disk.note.contains("was ignored"));
}

#[test]
fn an_out_file_symlinked_to_the_markdown_itself_is_ignored() {
    let md = "```shell out=alias.md\necho nope\n```\n";
    let mut disk = Disk::new(md);
    disk.links.push(("/notes/alias.md", "/notes/note.md"));
    assert!(disk.apply(&mut session(md, 50), 0, &outcome("nope\n", Some(0))));
    assert!(disk.files.is_empty());
    assert!(disk.note.contains("```shell out=alias.md"), "the cell survived");
    assert!(disk.note.contains("```text\nnope\n```"));
}

#[test]
fn a_result_link_written_in_the_angle_bracket_form_round_trips() {
    let md = "```shell\necho spaced\n```\n\nResult:\n[date result.txt](<date result.txt>)\n";
    let disk = run(md, 50, "spaced\n");
    assert_eq!(disk.file("/notes/date result.txt"), Some("spaced\n"));
    assert_eq!(disk.files.len(), 1);
}

#[test]
fn a_generated_sidecar_name_taken_by_a_directory_falls_back_to_inline() {
    let md = "```shell\nseq 1 12\n```\n";
    let mut disk = Disk::new(md);
    disk.directories.push("/notes/note-result-1.txt");
    let output = "1\n2\n3\n4\n5\n6\n7\n8\n9\n10\n11\n12\n";
    assert!(disk.apply(&mut session(md, 5), 0, &outcome(output, Some(0))));
    assert!(disk.note.contains("```text\n1\n2\n"), "output landed inline");
    assert!(!disk.note.contains("[note-result-1.txt]"));
    assert!(!disk.note.contains("was ignored"));
}

#[test]
fn an_out_file_with_balanced_parentheses_round_trips() {
    let md = "```shell\necho parens\n```\n\nResult:\n[result](run(1).txt)\n";
    let disk = run(md, 50, "parens\n");
    assert_eq!(disk.file("/notes/run(1).txt"), Some("parens\n"));
}

#[test]
fn an_out_file_under_a_regular_file_falls_back_to_inline() {
    let md = "```shell out=logs/result.txt\necho nope\n```\n";
    let mut disk = Disk::new(md);
    disk.files
        .push(("/notes/logs".to_string(), "not a directory\n".to_string()));
    disk.writable = false;
    assert!(disk.apply(&mut session(md, 50), 0, &outcome("nope\n", Some(0))));
    assert_eq!(disk.file("/notes/logs"), Some("not a directory\n"));
    assert!(disk.note.contains("```text\nnope\n```"));
}

#[test]
fn a_failing_command_is_recorded_with_its_exit_code() {
    let md = "```shell\necho boom 1>&2\nexit 7\n```\n";
    let mut disk = Disk::new(md);
    let failed = outcome("boom\n", Some(7));
    assert!(!failed.is_success());
    assert!(disk.apply(&mut session(md, 50), 0, &failed));
    assert!(disk.note.contains("(exit 7,"));
    assert!(disk.note.contains("boom"));
}

#[test]
fn other_cells_and_their_results_stay_as_they_are() {
    let md = "```sh\na\n```\n\n<!-- runandlog:begin -->\nra\n<!-- runandlog:end -->\n\n```sh\nb\n```\n\n```sh out=c.txt\nc\n```\n\n<!-- runandlog:begin -->\nrc\n<!-- runandlog:end -->\n";
    let mut disk = Disk::new(md);
    let mut session = session(md, 50);
    assert!(disk.apply(&mut session, 1, &outcome("```sh\nx\n", Some(0))));
    let doc = session.doc();
    assert_eq!(doc.cells.len(), 3);
    assert_eq!(doc.result_at(0), Some("ra"));
    assert_eq!(doc.result_at(2), Some("rc"));
    assert_eq!(doc.cells[2].command, "c\n");
    assert_eq!(doc.cells[2].out_file.as_deref(), Some("c.txt"));
    assert_eq!(
        doc.result_at(1),
        Some("Ran result: 2026-08-14 09:53:32 (exit 0, 1.00s, 2 lines)\n\n````text\n```sh\nx\n````")
    );
}

#[test]
fn a_session_knows_its_directory_and_name() {
    let of = |path: &str| {
        let options = ExecOptions::new(FsPath::from_text("/w"), Some(FsPath::from_text("/bin/zsh")));
        let md = "```sh\nseq 3\n```\n\n```sh out=x\na\n```\n";
        Session::load(FsPath::from_text(path), md, options, 1)
    };
    let session = of("/a/b.c.md");
    assert_eq!(session.len(), 2);
    assert!(!session.is_empty());
    assert_eq!(session.path().to_bytes(), b"/a/b.c.md");
    assert_eq!(session.exec_options().shell.to_bytes(), b"/bin/zsh");
    let link = |path: &str| {
        let rendered = of(path).render_outcome(0, &outcome("1\n2\n", Some(0)), true);
        let sidecar = rendered.sidecar.unwrap();
        (sidecar.link, sidecar.path.to_bytes())
    };
    assert_eq!(link("/a/b.c.md"), ("b.c-result-1.txt".into(), b"/a/b.c-result-1.txt".to_vec()));
    assert_eq!(link("/a/.md"), (".md-result-1.txt".into(), b"/a/.md-result-1.txt".to_vec()));
    assert_eq!(link("/a/b"), ("b-result-1.txt".into(), b"/a/b-result-1.txt".to_vec()));
    assert_eq!(link("/"), ("runandlog-result-1.txt".into(), b"./runandlog-result-1.txt".to_vec()));
    assert_eq!(session.out_file_target(0), None);
    assert_eq!(session.out_file_target(1).unwrap().to_bytes(), b"/a/x");
}

#[test]
fn a_result_that_lands_in_a_fence_keeps_the_other_cells() {
    let md = "```sh\na\n```\nResult: [x](x.txt)\n~~~python\n\nprint()\n~~~\n\n```sh\nb\n```\n";
    let mut disk = Disk::new(md);
    let mut session = session(md, 50);
    assert_eq!(session.len(), 2);
    disk.writable = false;
    assert!(disk.apply(&mut session, 0, &outcome("kept\n", Some(0))));
    assert!(disk.note.contains("~~~python\n\n<!-- runandlog:begin -->"));
    assert_eq!(session.len(), 2);
    assert_eq!(session.command_of(0), "a\n");
    assert_eq!(session.command_of(1), "b\n");
}

#[test]
fn an_event_out_of_place_changes_nothing() {
    let mut session = session("```sh\na\n```\n", 50);
    let run = outcome("x", Some(0));
    let stage = next_stage(&mut session, 0, &run, Stage::Read, Event::Written);
    assert!(matches!(stage, Stage::Read));
    let stage = next_stage(&mut session, 0, &run, Stage::Done, Event::Stored(true));
    assert!(matches!(stage, Stage::Done));
    assert_eq!(session.doc().text, "```sh\na\n```\n");
}

#[test]
fn a_destination_is_looked_up_from_its_end() {
    let path = FsPath::from_text;
    let note = path("/n/note.md");
    let mut inquiry = Inquiry::Base { target: path("/n/a/b/c") };
    inquiry = next_inquiry(&note, inquiry, Finding::Resolved(path("/n")));
    let mut seen = vec![];
    while let Inquiry::Existence { existing, .. } = &inquiry {
        let here = existing.to_bytes();
        let found = here == b"/n";
        seen.push(String::from_utf8(here).unwrap());
        inquiry = next_inquiry(&note, inquiry, Finding::Is(found));
    }
    assert_eq!(seen, vec!["/n/a/b/c", "/n/a/b", "/n/a", "/n"]);
    let settled = next_inquiry(&note, inquiry, Finding::Resolved(path("/n")));
    assert!(matches!(settled, Inquiry::Settled(true)));
}

#[test]
fn a_path_without_a_name_to_take_away_is_not_allowed() {
    let path = FsPath::from_text;
    let inquiry = Inquiry::Existence { base: path("/n"), existing: path("/n/.."), rest: vec![] };
    let settled = next_inquiry(&path("/n/note.md"), inquiry, Finding::Is(false));
    assert!(matches!(settled, Inquiry::Settled(false)));
}

#[test]
fn only_what_lies_under_the_directory_is_safe() {
    let path = FsPath::from_text;
    let safe = |p: &str| is_safe_out_file(&path("/n"), &path("/n/note.md"), &path(p));
    assert!(safe("/n/x"));
    assert!(safe("/n/x/y"));
    assert!(!safe("/n/note.md"));
    assert!(!safe("/nx/y"));
    assert!(!safe("/n//note.md/"));
    assert!(!safe("/"));
}

#[test]
fn a_temporary_file_is_named_after_the_file_and_the_attempt() {
    let path = FsPath::from_text("/n/note.md");
    assert_eq!(
        candidate(&path, 42, 0).to_bytes(),
        b"/n/.note.md.runandlog-42-0.tmp"
    );
    assert_eq!(
        candidate(&path, 42, 63).to_bytes(),
        b"/n/.note.md.runandlog-42-63.tmp"
    );
    assert_eq!(
        candidate(&FsPath::from_text("/"), 1, 2).to_bytes(),
        b"/.runandlog.runandlog-1-2.tmp"
    );
}

#[test]
fn every_temporary_file_is_renamed_or_removed() {
    let mut step = Step::Create(0);
    for attempt in 0..ATTEMPTS {
        assert_eq!(step, Step::Create(attempt));
        assert_eq!(next_step(step, StepResult::Worked), Step::Fill(attempt));
        assert_eq!(next_step(step, StepResult::Error), Step::Failed);
        step = next_step(step, StepResult::Taken);
    }
    assert_eq!(step, Step::Exhausted);
    assert_eq!(next_step(Step::Fill(3), StepResult::Worked), Step::Done);
    assert_eq!(next_step(Step::Fill(3), StepResult::Error), Step::Remove(3));
    assert_eq!(next_step(Step::Remove(3), StepResult::Worked), Step::Failed);
    assert_eq!(next_step(Step::Done, StepResult::Error), Step::Done);
    assert_eq!(ATTEMPTS, 64);
}

#[test]
fn a_repeatedly_failing_sidecar_write_leaves_no_temporary_files() {
    let md = "```shell\nseq 1 12\n```\n";
    let mut disk = Disk::new(md);
    // A directory has the name of the separate file, so that every rename fails.
    disk.directories.push("/notes/note-result-1.txt");
    let mut session = session(md, 5);
    let output = "1\n2\n3\n4\n5\n6\n7\n8\n9\n10\n11\n12\n";
    for _ in 0..70 {
        assert!(disk.apply(&mut session, 0, &outcome(output, Some(0))));
    }
    let leftovers: Vec<_> = disk
        .files
        .iter()
        .filter(|(name, _)| name.ends_with(".tmp"))
        .collect();
    assert!(
        leftovers.is_empty(),
        "temporary files left behind: {leftovers:?}"
    );
    assert!(disk.note.contains("```text\n1\n2\n"));
}

#[test]
fn no_two_cells_share_a_numbered_file() {
    let md = "```sh\na\n```\n\n```sh\nb\n```\n";
    let session = session(md, 0);
    let link = |index: usize| {
        let rendered = session.render_outcome(index, &outcome("x\n", Some(0)), true);
        rendered.sidecar.unwrap().link
    };
    assert_eq!(link(0), "note-result-1.txt");
    assert_eq!(link(1), "note-result-2.txt");
}

#[test]
fn one_result_remains_however_a_document_ends() {
    for md in [
        "```shell\ndate\n```",
        "```shell\ndate",
        "~~~~sh\ndate\n",
        "  ```sh\n  date",
        "```shell",
        "```shell\ndate\n```\n\nResult:\n[o.txt](o.txt)",
        "```sh\na\n```\n\n```shell\ndate\n```\n結果: [o b.txt](<o b.txt>)",
    ] {
        let mut disk = Disk::new(md);
        let mut session = session(md, 50);
        let index = session.len() - 1;
        let command = session.command_of(index);
        for _ in 0..3 {
            assert!(disk.apply(&mut session, index, &outcome("old\n", Some(0))));
        }
        assert!(disk.apply(&mut session, index, &outcome("new\n", Some(3))));
        assert_eq!(disk.note.matches("<!-- runandlog:begin -->").count(), 1, "{md}");
        assert_eq!(disk.note.matches("<!-- runandlog:end -->").count(), 1, "{md}");
        assert!(disk.note.contains("(exit 3,"), "{md}");
        assert_eq!(session.len(), index + 1, "{md}");
        assert_eq!(session.command_of(index).trim_end(), command.trim_end(), "{md}");
        assert!(session.doc().result_at(index).unwrap().contains("(exit 3,"));
    }
}
