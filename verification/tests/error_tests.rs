use mfbc::error::ErrorCtx;

#[test]
fn test_report_long_source_window() {
    // A source longer than ten characters quotes the nine characters
    // before the failing position, with the caret under the window's end.
    let ctx = ErrorCtx::new("abcdefghijklmno");
    let report = ctx.report("Expected a ']'", 12);
    assert_eq!(report, "Expected a ']'\ndefghijkl\n         ^ Here\n");
}

#[test]
fn test_report_short_source_window() {
    // A short source quotes everything before the failing position.
    let ctx = ErrorCtx::new("ab");
    let report = ctx.report("Expected a ']'", 1);
    assert_eq!(report, "Expected a ']'\na\n ^ Here\n");
}

#[test]
fn test_report_position_past_end() {
    // A position past the end of the source is clamped to it.
    let ctx = ErrorCtx::new("abc");
    let report = ctx.report("Unexpected EOF", 9);
    assert_eq!(report, "Unexpected EOF\nabc\n   ^ Here\n");
}
