use runandlog::live::{tail, LiveOutput};

#[test]
fn shows_the_last_lines() {
    let mut live = LiveOutput::new(1024);
    live.push("one\ntwo\n");
    live.push("three\nfour\n");

    assert_eq!(live.tail_lines(3), vec!["two", "three", "four"]);
}

#[test]
fn asking_for_more_lines_than_there_are_gives_what_there_is() {
    let mut live = LiveOutput::new(1024);
    live.push("only\n");

    assert_eq!(live.tail_lines(3), vec!["only"]);
}

#[test]
fn a_trailing_newline_is_not_a_line() {
    let mut live = LiveOutput::new(1024);
    live.push("one\ntwo\nthree\n");

    assert_eq!(live.tail_lines(3), vec!["one", "two", "three"]);
}

#[test]
fn a_line_still_being_written_is_shown() {
    let mut live = LiveOutput::new(1024);
    live.push("done\nworking");

    assert_eq!(live.tail_lines(2), vec!["done", "working"]);
}

#[test]
fn nothing_printed_yet_is_no_lines() {
    let live = LiveOutput::new(1024);
    assert!(live.is_empty());
    assert!(live.tail_lines(3).is_empty());
}

#[test]
fn clearing_starts_the_next_run_empty() {
    let mut live = LiveOutput::new(1024);
    live.push("from the last run\n");
    live.clear();

    assert!(live.is_empty());
}

#[test]
fn a_command_that_never_stops_printing_does_not_grow_the_buffer() {
    let mut live = LiveOutput::new(64);
    for index in 0..1000 {
        live.push(&format!("line {index}\n"));
    }

    assert!(live.text.len() <= 64, "buffer grew to {}", live.text.len());
    assert_eq!(live.tail_lines(1), vec!["line 999"]);
}

#[test]
fn dropping_the_oldest_text_never_splits_a_character() {
    let mut live = LiveOutput::new(16);
    for _ in 0..20 {
        live.push("行\n");
    }

    assert!(live.text.ends_with("行\n"));
}

#[test]
fn text_shorter_than_the_limit_is_left_alone() {
    assert_eq!(tail("short", 64), "short");
}

#[test]
fn the_tail_is_the_longest_that_fits() {
    assert_eq!(tail("abcdef", 3), "def");
    assert_eq!(tail("aé行", 4), "行");
    assert_eq!(tail("aé行", 5), "é行");
    assert_eq!(tail("行", 2), "");
}

#[test]
fn pieces_leave_what_the_whole_would_leave() {
    let mut pieces = LiveOutput::new(10);
    for piece in ["ab行", "cd", "", "é行x", "yz"] {
        pieces.push(piece);
    }
    let mut whole = LiveOutput::new(10);
    whole.push("ab行cdé行xyz");
    assert_eq!(pieces.text, whole.text);
    assert_eq!(whole.text, tail("ab行cdé行xyz", 10));
}

#[test]
fn carriage_returns_before_a_line_feed_are_dropped() {
    let mut live = LiveOutput::new(64);
    live.push("a\r\nb\r\n\nc\r");
    assert_eq!(live.tail_lines(9), vec!["a", "b", "", "c\r"]);
}
