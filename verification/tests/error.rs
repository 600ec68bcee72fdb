use squiller::error::highlight_span_in_line;
use squiller::Span;

#[test]
fn highlight_span_handles_eof_span() {
    let fname = "x.sql";
    let input = b"foo";
    let color = "";
    let span = Span { start: 3, end: 3 };
    let result = highlight_span_in_line(fname, input, span, color);
    let lines: Vec<_> = result.lines().collect();
    // The arrow points outside of the input, but that should be fine.
    assert_eq!(lines[2], "1 | foo");
    assert_eq!(lines[3], "  |    ^\x1b[0m");
}
