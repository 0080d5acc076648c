use runandlog::parse::{BEGIN_MARKER, END_MARKER};
use runandlog::{splice, Document, Edit};

#[test]
fn finds_shell_cells_and_ignores_other_languages() {
    let md = "# title\n\n```shell\ndate\n```\n\n```python\nprint(1)\n```\n\n```sh\nls /opt\nls /tmp\n```\n";
    let doc = Document::parse(md);
    assert_eq!(doc.cells.len(), 2);
    assert_eq!(doc.cells[0].command, "date\n");
    assert_eq!(doc.cells[1].command, "ls /opt\nls /tmp\n");
    assert_eq!(doc.cells[1].display_number(), 2);
}

#[test]
fn ignores_fences_without_language() {
    let doc = Document::parse("```\ndate\n```\n");
    assert!(doc.cells.is_empty());
}

#[test]
fn inserts_result_after_fence() {
    let md = "```shell\ndate\n```\n\nnext paragraph\n";
    let doc = Document::parse(md);
    let region = format!("{BEGIN_MARKER}\nRan\n{END_MARKER}\n");
    let edit = doc.result_edit(&doc.cells[0], &region);
    let out = splice(md, vec![edit]);
    assert_eq!(
        out,
        "```shell\ndate\n```\n\n<!-- runandlog:begin -->\nRan\n<!-- runandlog:end -->\n\nnext paragraph\n"
    );
}

#[test]
fn inserts_result_when_fence_is_last_line_without_trailing_newline() {
    let md = "```shell\ndate\n```";
    let doc = Document::parse(md);
    let region = format!("{BEGIN_MARKER}\nRan\n{END_MARKER}\n");
    let out = splice(md, vec![doc.result_edit(&doc.cells[0], &region)]);
    assert_eq!(
        out,
        "```shell\ndate\n```\n<!-- runandlog:begin -->\nRan\n<!-- runandlog:end -->\n"
    );
}

#[test]
fn replaces_existing_result_block() {
    let md = "```shell\ndate\n```\n\n<!-- runandlog:begin -->\nold\n<!-- runandlog:end -->\n\ntail\n";
    let doc = Document::parse(md);
    assert!(doc.cells[0].result_span.is_some());
    let region = format!("{BEGIN_MARKER}\nnew\n{END_MARKER}\n");
    let out = splice(md, vec![doc.result_edit(&doc.cells[0], &region)]);
    assert_eq!(
        out,
        "```shell\ndate\n```\n\n<!-- runandlog:begin -->\nnew\n<!-- runandlog:end -->\n\ntail\n"
    );
}

#[test]
fn result_block_of_previous_cell_is_not_stolen_by_next_cell() {
    let md = "```shell\na\n```\n\n<!-- runandlog:begin -->\nold\n<!-- runandlog:end -->\n\n```shell\nb\n```\n";
    let doc = Document::parse(md);
    assert_eq!(doc.cells.len(), 2);
    assert!(doc.cells[0].result_span.is_some());
    assert!(doc.cells[1].result_span.is_none());
}

#[test]
fn reads_out_file_from_fence_attribute() {
    let doc = Document::parse("```shell out=\"date result.txt\"\ndate\n```\n");
    assert_eq!(doc.cells[0].out_file.as_deref(), Some("date result.txt"));
}

#[test]
fn reads_out_file_from_result_paragraph() {
    let md = "```shell\ndate\n```\n\nResult:\n[date-command-result.txt](date-command-result.txt)\n\ntail\n";
    let doc = Document::parse(md);
    assert_eq!(
        doc.cells[0].out_file.as_deref(),
        Some("date-command-result.txt")
    );
    let region = format!("{BEGIN_MARKER}\nRan\n{END_MARKER}\n");
    let out = splice(md, vec![doc.result_edit(&doc.cells[0], &region)]);
    assert!(out.contains(
        "[date-command-result.txt](date-command-result.txt)\n\n<!-- runandlog:begin -->"
    ));
}

#[test]
fn accepts_bare_bracket_designation() {
    let md = "```shell\ndate\n```\n\nResult:\n[out.txt]\n";
    let doc = Document::parse(md);
    assert_eq!(doc.cells[0].out_file.as_deref(), Some("out.txt"));
}

#[test]
fn end_marker_inside_the_output_does_not_close_the_result_block() {
    let md = "```shell\ncat log\n```\n\n<!-- runandlog:begin -->\nRan\n\n````text\n<!-- runandlog:end -->\nstill output\n````\n<!-- runandlog:end -->\n\ntail\n";
    let doc = Document::parse(md);
    let region = format!("{BEGIN_MARKER}\nnew\n{END_MARKER}\n");
    let out = splice(md, vec![doc.result_edit(&doc.cells[0], &region)]);
    assert_eq!(
        out,
        "```shell\ncat log\n```\n\n<!-- runandlog:begin -->\nnew\n<!-- runandlog:end -->\n\ntail\n"
    );
}

#[test]
fn unclosed_result_block_is_ignored() {
    let md = "```shell\ndate\n```\n\n<!-- runandlog:begin -->\nbroken\n";
    let doc = Document::parse(md);
    assert!(doc.cells[0].result_span.is_none());
}

#[test]
fn handles_longer_fences_and_nested_backticks() {
    let md = "````shell\necho '```'\n````\n";
    let doc = Document::parse(md);
    assert_eq!(doc.cells.len(), 1);
    assert_eq!(doc.cells[0].command, "echo '```'\n");
}

#[test]
fn dedents_indented_fence_body() {
    let md = "  ```shell\n  date\n  ```\n";
    let doc = Document::parse(md);
    assert_eq!(doc.cells[0].command, "date");
}

#[test]
fn splices_multiple_cells_at_once() {
    let md = "```shell\na\n```\n\n```shell\nb\n```\n";
    let doc = Document::parse(md);
    let edits = doc
        .cells
        .iter()
        .map(|cell| {
            doc.result_edit(
                cell,
                &format!("{BEGIN_MARKER}\nr{}\n{END_MARKER}\n", cell.display_number()),
            )
        })
        .collect();
    let out = splice(md, edits);
    assert!(out.contains("\nr1\n"));
    assert!(out.contains("\nr2\n"));
}

#[test]
fn offsets_are_counted_in_bytes() {
    let md = "# 題\n\n```shell\necho é\n```\n\nend\n";
    let doc = Document::parse(md);
    let cell = &doc.cells[0];
    assert_eq!(&md[cell.fence_start..cell.fence_end], "```shell\necho é\n```\n");
    assert_eq!(cell.insert_at, cell.fence_end);
    assert_eq!(cell.lang, "shell");
}

#[test]
fn a_fence_that_is_never_closed_runs_to_the_end() {
    let doc = Document::parse("```bash\necho a\necho b");
    assert_eq!(doc.cells.len(), 1);
    assert_eq!(doc.cells[0].command, "echo a\necho b");
    assert_eq!(doc.cells[0].fence_end, 21);
}

#[test]
fn carriage_returns_are_not_part_of_a_line() {
    let doc = Document::parse("```sh\r\ndate\r\n```\r\n");
    assert_eq!(doc.cells.len(), 1);
    assert_eq!(doc.cells[0].lang, "sh");
    assert_eq!(doc.cells[0].command, "date\r\n");
}

#[test]
fn languages_are_compared_without_regard_to_case() {
    let doc = Document::parse("```BASH\na\n```\n\n~~~Zsh\nb\n~~~\n\n```fish\nc\n```\n");
    assert_eq!(doc.cells.len(), 2);
    assert_eq!(doc.cells[0].lang, "BASH");
    assert_eq!(doc.cells[1].lang, "Zsh");
}

#[test]
fn four_spaces_make_no_fence() {
    assert!(Document::parse("    ```shell\ndate\n```\n").cells.is_empty());
}

#[test]
fn the_last_designation_of_a_fence_counts() {
    let doc = Document::parse("```sh out=a.txt file=b.txt other=c.txt\nls\n```\n");
    assert_eq!(doc.cells[0].out_file.as_deref(), Some("b.txt"));
    assert!(!doc.cells[0].out_file_in_text);
}

#[test]
fn the_fence_attribute_wins_over_the_paragraph() {
    let doc = Document::parse("```sh out=a.txt\nls\n```\n\n**Result:** [b.txt](b.txt)\n");
    assert_eq!(doc.cells[0].out_file.as_deref(), Some("a.txt"));
    assert!(!doc.cells[0].out_file_in_text);
}

#[test]
fn a_japanese_heading_designates_too() {
    let doc = Document::parse("```sh\nls\n```\n\n結果:\n[b.txt](b.txt)\n");
    assert_eq!(doc.cells[0].out_file.as_deref(), Some("b.txt"));
    assert!(doc.cells[0].out_file_in_text);
}

#[test]
fn link_targets_may_be_bracketed_or_hold_parentheses() {
    let of = |link: &str| {
        let md = format!("```sh\nls\n```\n\nResult: {link}\n");
        Document::parse(&md).cells[0].out_file.clone()
    };
    assert_eq!(of("[x](<a b.txt>)").as_deref(), Some("a b.txt"));
    assert_eq!(of("[x](run(1).txt)").as_deref(), Some("run(1).txt"));
    assert_eq!(of("[x]( spaced.txt )").as_deref(), Some("spaced.txt"));
    assert_eq!(of("[x](open(1.txt)").as_deref(), Some("open(1.txt"));
    assert_eq!(of("[x](run(1.txt) see note)").as_deref(), Some("run(1.txt"));
    assert_eq!(of("[x](run(a b).txt)").as_deref(), Some("run(a b"));
    assert_eq!(of("[label]()").as_deref(), Some("label"));
    assert_eq!(of("[label](never closed"), None);
    assert_eq!(of("[]"), None);
    assert_eq!(of("no link"), None);
}

#[test]
fn the_text_of_a_result_leaves_the_markers_out() {
    let md = "```sh\nls\n```\n\n<!-- runandlog:begin -->\n\nRan\n\nbody\n\n<!-- runandlog:end -->\n";
    let doc = Document::parse(md);
    assert_eq!(doc.result_text(&doc.cells[0]), Some("Ran\n\nbody"));
    assert_eq!(doc.result_at(0), Some("Ran\n\nbody"));
    let none = Document::parse("```sh\nls\n```\n");
    assert_eq!(none.result_text(&none.cells[0]), None);
}

#[test]
fn edits_are_applied_in_the_order_of_their_starts() {
    let edit = |start: usize, end: usize, replacement: &str| Edit {
        start,
        end,
        replacement: replacement.to_string(),
    };
    let out = splice("abcdef", vec![edit(4, 5, "X"), edit(1, 2, "Y"), edit(1, 1, "Z")]);
    // The edit at 1..1 starts before the end of the one at 1..2 and is left out.
    assert_eq!(out, "aYcdXf");
    assert_eq!(splice("aé", vec![edit(1, 3, "b")]), "ab");
}

#[test]
fn a_fence_left_open_is_closed_before_its_result() {
    let region = format!("{BEGIN_MARKER}\nRan\n{END_MARKER}\n");
    let written = |md: &str| {
        let doc = Document::parse(md);
        splice(md, vec![doc.result_edit(&doc.cells[0], &region)])
    };
    assert_eq!(
        written("```shell\ndate"),
        format!("```shell\ndate\n```\n\n{region}")
    );
    assert_eq!(
        written("~~~~sh\ndate\n"),
        format!("~~~~sh\ndate\n~~~~\n\n{region}")
    );
    assert_eq!(written("```sh"), format!("```sh\n```\n\n{region}"));
    let again = Document::parse(&written("```shell\ndate"));
    assert_eq!(again.cells[0].command, "date\n");
    assert_eq!(again.result_text(&again.cells[0]), Some("Ran"));
}

#[test]
fn a_paragraph_ends_before_a_result() {
    let md = "```shell\ndate\n```\n\nResult:\n[o.txt](o.txt)";
    let old = "<!-- runandlog:begin -->\nold\n<!-- runandlog:end -->\n";
    let new = "<!-- runandlog:begin -->\nnew\n<!-- runandlog:end -->\n";
    let first = Document::parse(md);
    let text = splice(md, vec![first.result_edit(&first.cells[0], old)]);
    assert_eq!(text, format!("{md}\n{old}"));
    let second = Document::parse(&text);
    assert_eq!(second.cells[0].out_file.as_deref(), Some("o.txt"));
    let result = splice(&text, vec![second.result_edit(&second.cells[0], new)]);
    assert_eq!(result, format!("{md}\n{new}"));
}
