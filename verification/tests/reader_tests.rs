use elm327::reader::scan;
use elm327::reader::scan_all;
use elm327::reader::LineScanner;
use elm327::reader::StepEvent;

#[test]
fn scan_all_collects_lines_up_to_prompt() {
    let lines = scan_all(b"41 0C 1A F8\r\nNO DATA\r>").unwrap();
    assert_eq!(
        lines,
        vec!["41 0C 1A F8".to_string(), "NO DATA".to_string()]
    );
}

#[test]
fn scan_all_flushes_line_closed_by_prompt() {
    let lines = scan_all(b"A\rB\nC>").unwrap();
    assert_eq!(
        lines,
        vec!["A".to_string(), "B".to_string(), "C".to_string()]
    );
}

#[test]
fn scan_all_drops_empty_segments() {
    // Terminator runs produce empty segments, which never surface.
    let lines = scan_all(b"\r\n\r\nA\r\n\r\n>").unwrap();
    assert_eq!(lines, vec!["A".to_string()]);
    for line in &lines {
        assert!(!line.is_empty());
    }
}

#[test]
fn scan_all_prompt_only() {
    let lines = scan_all(b">").unwrap();
    assert!(lines.is_empty());
}

#[test]
fn scan_all_without_prompt_is_none() {
    assert!(scan_all(b"41 0C 1A F8\r\n").is_none());
    assert!(scan_all(b"").is_none());
}

#[test]
fn scan_all_drops_invalid_text_lines() {
    // A segment that is not valid UTF-8 is dropped silently; scanning goes on.
    let lines = scan_all(b"\xFF\xFE\rA\r>").unwrap();
    assert_eq!(lines, vec!["A".to_string()]);
}

#[test]
fn scan_stops_on_rejected_line() {
    let lines = scan(b"A\rB\rC\r>", |s: &str| s != "B").unwrap();
    assert_eq!(lines, vec!["A".to_string(), "B".to_string()]);
}

#[test]
fn scan_early_exit_needs_no_prompt() {
    // The predicate's false answer ends the scan even though no prompt ever
    // arrives.
    let lines = scan(b"A\rB\rC\r", |s: &str| s != "B").unwrap();
    assert_eq!(lines, vec!["A".to_string(), "B".to_string()]);
}

#[test]
fn scan_runs_out_without_prompt_or_rejection() {
    assert!(scan(b"A\rB\r", |_s: &str| true).is_none());
}

#[test]
fn scan_never_shows_empty_lines_to_the_predicate() {
    // With an always-false predicate, any invocation would stop the scan;
    // blank input reaches the prompt, so the predicate was never consulted.
    let lines = scan(b"\r\n\r\n>", |_s: &str| false).unwrap();
    assert!(lines.is_empty());
    // The first real line is the one that stops the scan.
    let lines = scan(b"\r\n\r\nA\rB\r>", |_s: &str| false).unwrap();
    assert_eq!(lines, vec!["A".to_string()]);
}

#[test]
fn scan_all_surfaces_space_only_lines() {
    // Only zero-byte segments are discarded: a segment of spaces is a
    // nonempty line and surfaces like any other.
    let lines = scan_all(b"   \rA\r>").unwrap();
    assert_eq!(lines, vec!["   ".to_string(), "A".to_string()]);
}

#[test]
fn scan_all_echo_then_data() {
    let lines = scan_all(b"01 0C\r41 0C 1A F8\r\r>").unwrap();
    assert_eq!(
        lines,
        vec!["01 0C".to_string(), "41 0C 1A F8".to_string()]
    );
}

#[test]
fn scanner_steps_report_events() {
    let mut sc = LineScanner::new();
    assert_eq!(sc.step(b'O'), StepEvent::Quiet);
    assert_eq!(sc.step(b'K'), StepEvent::Quiet);
    assert_eq!(sc.step(b'\r'), StepEvent::Line);
    assert_eq!(sc.step(b'\n'), StepEvent::Quiet);
    assert_eq!(sc.step(b'4'), StepEvent::Quiet);
    assert_eq!(sc.step(b'1'), StepEvent::Quiet);
    assert_eq!(sc.step(b'>'), StepEvent::PromptLine);
    assert_eq!(sc.lines, vec!["OK".to_string(), "41".to_string()]);
    assert!(sc.buf.is_empty());
}

#[test]
fn scanner_prompt_without_pending_line() {
    let mut sc = LineScanner::new();
    assert_eq!(sc.step(b'A'), StepEvent::Quiet);
    assert_eq!(sc.step(b'\n'), StepEvent::Line);
    assert_eq!(sc.step(b'>'), StepEvent::Prompt);
    assert_eq!(sc.lines, vec!["A".to_string()]);
}
