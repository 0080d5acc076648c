use runandlog::paths::FsPath;
use runandlog::time::{Elapsed, Timestamp};
use runandlog::{render_result, Cell, Document, ExecOutcome, RenderContext};

fn outcome(output: &str) -> ExecOutcome {
    ExecOutcome {
        started_at: Timestamp::new(2026, 8, 14, 9, 53, 32, 0).unwrap(),
        duration: Elapsed::new(0, 120_000_000).unwrap(),
        exit_code: Some(0),
        output: output.to_string(),
        timed_out: false,
        cancelled: false,
        truncated: false,
    }
}

fn context(max_inline_lines: usize) -> RenderContext {
    RenderContext {
        md_dir: FsPath::from_text("/tmp/notes"),
        md_stem: "exam".to_string(),
        max_inline_lines,
    }
}

fn cell(md: &str) -> Cell {
    Document::parse(md).cells.remove(0)
}

#[test]
fn renders_inline_result() {
    let rendered = render_result(
        &cell("```shell\ndate\n```\n"),
        &outcome("Fri Aug 14 09:53:32 JST 2026\n"),
        &context(50),
        true,
    );
    assert_eq!(
        rendered.markdown,
        "<!-- runandlog:begin -->\nRan result: 2026-08-14 09:53:32 (exit 0, 0.12s, 1 lines)\n\n```text\nFri Aug 14 09:53:32 JST 2026\n```\n<!-- runandlog:end -->\n"
    );
    assert!(rendered.sidecar.is_none());
}

#[test]
fn renders_empty_output() {
    let rendered = render_result(
        &cell("```shell\ntrue\n```\n"),
        &outcome(""),
        &context(50),
        true,
    );
    assert!(rendered.markdown.contains("(no output)"));
    assert!(rendered.sidecar.is_none());
}

#[test]
fn lengthens_fence_when_output_contains_backticks() {
    let rendered = render_result(
        &cell("```shell\ndate\n```\n"),
        &outcome("```\ninner\n```\n"),
        &context(50),
        true,
    );
    assert!(rendered
        .markdown
        .contains("````text\n```\ninner\n```\n````"));
}

#[test]
fn writes_long_output_to_a_sidecar_file() {
    let long = (1..=51)
        .map(|i| i.to_string())
        .collect::<Vec<_>>()
        .join("\n");
    let rendered = render_result(
        &cell("```shell\nseq 51\n```\n"),
        &outcome(&long),
        &context(50),
        true,
    );
    let sidecar = rendered.sidecar.expect("sidecar");
    assert_eq!(sidecar.link, "exam-result-1.txt");
    assert_eq!(
        sidecar.path,
        FsPath::from_text("/tmp/notes/exam-result-1.txt")
    );
    assert!(sidecar.contents.ends_with("51\n"));
    assert!(rendered
        .markdown
        .contains("[exam-result-1.txt](exam-result-1.txt)"));
    assert!(rendered.markdown.contains("51 lines"));
}

#[test]
fn keeps_short_output_inline_at_the_boundary() {
    let output = (1..=50)
        .map(|i| i.to_string())
        .collect::<Vec<_>>()
        .join("\n");
    let rendered = render_result(
        &cell("```shell\nseq 50\n```\n"),
        &outcome(&output),
        &context(50),
        true,
    );
    assert!(rendered.sidecar.is_none());
}

#[test]
fn honours_designated_out_file_even_for_short_output() {
    let md = "```shell\ndate\n```\n\nResult:\n[date-command-result.txt](date-command-result.txt)\n";
    let rendered = render_result(&cell(md), &outcome("short\n"), &context(50), true);
    let sidecar = rendered.sidecar.expect("sidecar");
    assert_eq!(sidecar.link, "date-command-result.txt");
    assert_eq!(sidecar.contents, "short\n");
    assert!(!rendered.markdown.contains("date-command-result.txt"));
}

#[test]
fn repeats_the_link_when_the_out_file_comes_from_a_fence_attribute() {
    let md = "```shell out=uname.txt\nuname -a\n```\n";
    let rendered = render_result(&cell(md), &outcome("Linux\n"), &context(50), true);
    assert!(rendered.markdown.contains("[uname.txt](uname.txt)"));
}

#[test]
fn ignores_an_out_file_outside_the_markdown_directory() {
    let md = "```shell out=../../etc/passwd\nid\n```\n";
    let rendered = render_result(&cell(md), &outcome("uid=0\n"), &context(50), true);
    assert!(rendered.sidecar.is_none());
    assert!(rendered.markdown.contains("was ignored"));
    assert!(rendered.markdown.contains("```text\nuid=0\n```"));
}

#[test]
fn ignores_an_absolute_out_file() {
    let md = "```shell out=/etc/passwd\nid\n```\n";
    let rendered = render_result(&cell(md), &outcome("uid=0\n"), &context(50), true);
    assert!(rendered.sidecar.is_none());
}

#[test]
fn ignores_an_out_file_that_the_caller_rejected() {
    let md = "```shell out=logs/id.txt\nid\n```\n";
    let rendered = render_result(&cell(md), &outcome("uid=0\n"), &context(50), false);
    assert!(rendered.sidecar.is_none());
    assert!(rendered.markdown.contains("was ignored"));
}

#[test]
fn allows_an_out_file_in_a_subdirectory() {
    let md = "```shell out=logs/id.txt\nid\n```\n";
    let rendered = render_result(&cell(md), &outcome("uid=0\n"), &context(50), true);
    let sidecar = rendered.sidecar.expect("sidecar");
    assert_eq!(sidecar.path, FsPath::from_text("/tmp/notes/logs/id.txt"));
}

#[test]
fn lengthens_fence_for_indented_backticks_in_the_output() {
    let rendered = render_result(
        &cell("```shell\ndate\n```\n"),
        &outcome("   ```\n"),
        &context(50),
        true,
    );
    assert!(rendered.markdown.contains("````text"));
}

#[test]
fn reports_truncation_in_the_summary() {
    let mut truncated = outcome("partial\n");
    truncated.truncated = true;
    let rendered = render_result(
        &cell("```shell\nyes\n```\n"),
        &truncated,
        &context(50),
        true,
    );
    assert!(rendered.markdown.contains("was truncated"));
}

#[test]
fn reports_timeout_in_the_summary() {
    let mut timed_out = outcome("partial\n");
    timed_out.timed_out = true;
    let rendered = render_result(
        &cell("```shell\nsleep 30\n```\n"),
        &timed_out,
        &context(50),
        true,
    );
    assert!(rendered.markdown.contains("(timeout,"));
}

#[test]
fn a_destination_with_spaces_is_linked_between_angle_brackets() {
    let md = "```shell out=\"a b.txt\"\nid\n```\n";
    let rendered = render_result(&cell(md), &outcome("x"), &context(50), true);
    assert!(rendered.markdown.contains("\n\n[a b.txt](<a b.txt>)\n"));
    assert_eq!(rendered.sidecar.unwrap().link, "a b.txt");
}

#[test]
fn a_rejected_destination_of_long_output_is_replaced_by_a_numbered_one() {
    let md = "```sh\na\n```\n\nResult: [x](../x)\n\n```sh out=/x\nb\n```\n";
    let second = Document::parse(md).cells.remove(1);
    let rendered = render_result(&second, &outcome("1\n2\n3\n"), &context(2), true);
    assert_eq!(
        rendered.markdown,
        "<!-- runandlog:begin -->\nRan result: 2026-08-14 09:53:32 (exit 0, 0.12s, 3 lines) The designated output file points outside the Markdown directory and was ignored.\n\n[exam-result-2.txt](exam-result-2.txt)\n<!-- runandlog:end -->\n"
    );
    let sidecar = rendered.sidecar.unwrap();
    assert_eq!(sidecar.contents, "1\n2\n3\n");
    assert_eq!(sidecar.path.to_bytes(), b"/tmp/notes/exam-result-2.txt");
}

#[test]
fn an_empty_sidecar_stays_empty() {
    let md = "```shell out=log\ntrue\n```\n";
    let rendered = render_result(&cell(md), &outcome("\n\n"), &context(50), true);
    assert_eq!(rendered.sidecar.unwrap().contents, "");
}

#[test]
fn all_the_ways_to_end_are_named() {
    let mut run = outcome("");
    assert_eq!(run.status_text(), "exit 0");
    assert!(run.is_success());
    run.exit_code = Some(-7);
    assert_eq!(run.status_text(), "exit -7");
    assert!(!run.is_success());
    run.exit_code = None;
    assert_eq!(run.status_text(), "signaled");
    run.cancelled = true;
    assert_eq!(run.status_text(), "cancelled");
    run.timed_out = true;
    assert_eq!(run.status_text(), "timeout");
    run.exit_code = Some(0);
    assert!(!run.is_success());
}

#[test]
fn moments_are_written_in_full() {
    let at = |y, mo, d, h, mi, s, n| Timestamp::new(y, mo, d, h, mi, s, n).unwrap().text();
    assert_eq!(at(2026, 8, 14, 9, 53, 32, 0), "2026-08-14 09:53:32");
    assert_eq!(at(7, 1, 2, 3, 4, 5, 999_999_999), "0007-01-02 03:04:05");
    assert_eq!(at(2016, 12, 31, 23, 59, 59, 1_000_000_000), "2016-12-31 23:59:60");
    assert_eq!(at(-1, 2, 28, 0, 0, 0, 0), "-0001-02-28 00:00:00");
    assert_eq!(at(12345, 6, 7, 0, 0, 0, 0), "+12345-06-07 00:00:00");
    assert_eq!(at(-262143, 1, 1, 0, 0, 0, 0), "-262143-01-01 00:00:00");
    assert_eq!(at(262142, 12, 31, 0, 0, 0, 0), "+262142-12-31 00:00:00");
    assert_eq!(at(2024, 2, 29, 0, 0, 0, 0), "2024-02-29 00:00:00");
    assert_eq!(at(2000, 2, 29, 0, 0, 0, 0), "2000-02-29 00:00:00");
}

#[test]
fn moments_that_do_not_exist_are_refused() {
    assert!(Timestamp::new(2026, 2, 29, 0, 0, 0, 0).is_none());
    assert!(Timestamp::new(1900, 2, 29, 0, 0, 0, 0).is_none());
    assert!(Timestamp::new(2026, 4, 31, 0, 0, 0, 0).is_none());
    assert!(Timestamp::new(2026, 13, 1, 0, 0, 0, 0).is_none());
    assert!(Timestamp::new(2026, 0, 1, 0, 0, 0, 0).is_none());
    assert!(Timestamp::new(2026, 1, 0, 0, 0, 0, 0).is_none());
    assert!(Timestamp::new(2026, 1, 1, 24, 0, 0, 0).is_none());
    assert!(Timestamp::new(2026, 1, 1, 0, 60, 0, 0).is_none());
    assert!(Timestamp::new(2026, 1, 1, 0, 0, 60, 0).is_none());
    assert!(Timestamp::new(2026, 1, 1, 0, 0, 58, 1_000_000_000).is_none());
    assert!(Timestamp::new(2026, 1, 1, 0, 0, 59, 2_000_000_000).is_none());
    assert!(Timestamp::new(262143, 1, 1, 0, 0, 0, 0).is_none());
    assert!(Timestamp::new(-262144, 1, 1, 0, 0, 0, 0).is_none());
}

#[test]
fn a_moment_is_refused_exactly_when_the_calendar_refuses_it() {
    for year in [-262144, -262143, -400, -100, -4, -1, 0, 4, 1900, 2000, 2023, 2024, 262142, 262143] {
        for month in 0..=13 {
            for day in [0, 1, 28, 29, 30, 31, 32] {
                let known = chrono::NaiveDate::from_ymd_opt(year, month, day).is_some();
                let own = Timestamp::new(year, month, day, 0, 0, 0, 0).is_some();
                assert_eq!(own, known, "{year}-{month}-{day}");
            }
        }
    }
}

#[test]
fn durations_are_written_with_two_decimals() {
    let text = |secs, nanos| Elapsed::new(secs, nanos).unwrap().text();
    assert_eq!(text(0, 0), "0.00");
    assert_eq!(text(0, 120_000_000), "0.12");
    assert_eq!(text(0, 125_000_000), "0.12");
    assert_eq!(text(0, 996_000_000), "1.00");
    assert_eq!(text(61, 7_000_000), "61.01");
    assert_eq!(text(1_099_511_627_775, 990_000_000), "1099511627775.99");
    assert!(Elapsed::new(0, 1_000_000_000).is_none());
    assert!(Elapsed::from_secs(2).reaches(Elapsed::new(1, 999_999_999).unwrap()));
    assert!(Elapsed::from_secs(2).reaches(Elapsed::from_secs(2)));
    assert!(!Elapsed::from_secs(2).reaches(Elapsed::new(2, 1).unwrap()));
}

#[test]
fn a_rendered_result_is_found_again_whatever_was_printed() {
    let md = "# a\n\n```sh\necho\n```\n\nb\n";
    for printed in [
        "",
        "plain\n",
        "<!-- runandlog:end -->\n",
        "```\n<!-- runandlog:end -->\n```\n",
        "   `````\r\n<!-- runandlog:begin -->",
        "```sh\nnot a cell\n```\n",
        "~~~\n",
        "tabs\t\r\r\n\u{85}",
    ] {
        let doc = Document::parse(md);
        let rendered = render_result(&doc.cells[0], &outcome(printed), &context(50), true);
        let once = runandlog::splice(md, vec![doc.result_edit(&doc.cells[0], &rendered.markdown)]);
        let again = Document::parse(&once);
        assert_eq!(again.cells.len(), 1);
        assert_eq!(again.cells[0].command, "echo\n");
        let (start, end) = again.cells[0].result_span.unwrap();
        assert_eq!(&once[start..end], rendered.markdown);
        let text = again.result_text(&again.cells[0]).unwrap();
        assert!(text.starts_with("Ran result: "));
        assert_eq!(
            format!("<!-- runandlog:begin -->\n{text}\n<!-- runandlog:end -->\n"),
            rendered.markdown
        );
        let twice = runandlog::splice(
            &once,
            vec![again.result_edit(&again.cells[0], &rendered.markdown)],
        );
        assert_eq!(twice, once);
    }
}
