//! The diagnostics of the front end, and how they are rendered.
use crate::text::{count_byte, count_occurrences, find_byte, find_first};
use crate::Span;
use vstd::prelude::*;
use vstd::slice::slice_subrange;
use vstd::string::StringExecFns;
use vstd::utf8::{decode_utf8, valid_utf8};

verus! {

/// What every diagnostic can tell about itself.
pub trait Error {
    spec fn span_of(&self) -> Span;

    spec fn message_of(&self) -> Seq<char>;

    spec fn note_of(&self) -> Option<(Seq<char>, Span)>;

    spec fn hint_of(&self) -> Option<Seq<char>>;

    /// The source location of the error.
    fn span(&self) -> (span: Span)
        ensures
            span == self.span_of(),
    ;

    /// The error message.
    ///
    ///  * Shorter is better.
    ///  * Simpler is better (no jargon).
    ///  * The expected thing goes first, the actual thing goes second.
    fn message(&self) -> (message: &str)
        ensures
            message@ == self.message_of(),
    ;

    /// Optionally, a note about error.
    ///
    /// For example, an unmatched parenthesis can point to the opening paren.
    fn note(&self) -> (note: Option<(&str, Span)>)
        ensures
            match note {
                Some((text, span)) => self.note_of() == Some((text@, span)),
                None => self.note_of() is None,
            },
    ;

    /// Optionally, a hint on how to fix the problem.
    fn hint(&self) -> (hint: Option<&str>)
        ensures
            match hint {
                Some(text) => self.hint_of() == Some(text@),
                None => self.hint_of() is None,
            },
    ;
}

/// An error found while lexing or parsing.
#[derive(Debug)]
pub struct ParseError {
    pub span: Span,
    pub message: &'static str,
    pub note: Option<(&'static str, Span)>,
}

impl Error for ParseError {
    open spec fn span_of(&self) -> Span {
        self.span
    }

    open spec fn message_of(&self) -> Seq<char> {
        self.message@
    }

    open spec fn note_of(&self) -> Option<(Seq<char>, Span)> {
        match self.note {
            Some((text, span)) => Some((text@, span)),
            None => None,
        }
    }

    open spec fn hint_of(&self) -> Option<Seq<char>> {
        None
    }

    fn span(&self) -> (span: Span) {
        self.span
    }

    fn message(&self) -> (message: &str) {
        self.message
    }

    fn note(&self) -> (note: Option<(&str, Span)>) {
        match self.note {
            Some((text, span)) => Some((text, span)),
            None => None,
        }
    }

    fn hint(&self) -> (hint: Option<&str>) {
        None
    }
}

/// The error, and its note if it has one, point into an input of `len` bytes.
pub open spec fn located(error: ParseError, len: nat) -> bool {
    &&& error.span.within(len)
    &&& error.note matches Some((_, place)) ==> place.within(len)
}

/// A parse result, either the parsed value, or a parse error.
pub type PResult<T> = std::result::Result<T, ParseError>;

/// An error found after parsing, while resolving the types of a query.
#[derive(Debug)]
pub struct TypeError {
    pub span: Span,
    pub message: &'static str,
    pub note: Option<(String, Span)>,
    pub hint: Option<String>,
}

/// The model of a [`TypeError`]: its texts as sequences of characters.
pub struct TypeErrorView {
    pub span: Span,
    pub message: Seq<char>,
    pub note: Option<(Seq<char>, Span)>,
    pub hint: Option<Seq<char>>,
}

impl View for TypeError {
    type V = TypeErrorView;

    open spec fn view(&self) -> TypeErrorView {
        TypeErrorView {
            span: self.span,
            message: self.message@,
            note: match self.note {
                Some((text, span)) => Some((text@, span)),
                None => None,
            },
            hint: match self.hint {
                Some(text) => Some(text@),
                None => None,
            },
        }
    }
}

impl TypeErrorView {
    /// An error with only a message.
    pub open spec fn plain(span: Span, message: Seq<char>) -> TypeErrorView {
        TypeErrorView { span, message, note: None, hint: None }
    }

    /// An error with a note that points at another place.
    pub open spec fn noted(span: Span, message: Seq<char>, note_span: Span, note: Seq<char>) -> TypeErrorView {
        TypeErrorView { span, message, note: Some((note, note_span)), hint: None }
    }

    /// An error with a hint.
    pub open spec fn hinted(span: Span, message: Seq<char>, hint: Seq<char>) -> TypeErrorView {
        TypeErrorView { span, message, note: None, hint: Some(hint) }
    }
}

impl TypeError {
    /// An error with only a message.
    pub fn new(span: Span, message: &'static str) -> (error: TypeError)
        ensures
            error@ == TypeErrorView::plain(span, message@),
    {
        TypeError { span, message, note: None, hint: None }
    }

    /// An error with a note that points at another place.
    pub fn with_note(span: Span, message: &'static str, note_span: Span, note: &'static str) -> (error:
        TypeError)
        ensures
            error@ == TypeErrorView::noted(span, message@, note_span, note@),
    {
        TypeError { span, message, note: Some((note.to_string(), note_span)), hint: None }
    }

    /// An error with a hint on how to fix the problem.
    pub fn with_hint(span: Span, message: &'static str, hint: &'static str) -> (error: TypeError)
        ensures
            error@ == TypeErrorView::hinted(span, message@, hint@),
    {
        TypeError { span, message, note: None, hint: Some(hint.to_string()) }
    }
}

impl Error for TypeError {
    open spec fn span_of(&self) -> Span {
        self.span
    }

    open spec fn message_of(&self) -> Seq<char> {
        self.message@
    }

    open spec fn note_of(&self) -> Option<(Seq<char>, Span)> {
        self@.note
    }

    open spec fn hint_of(&self) -> Option<Seq<char>> {
        self@.hint
    }

    fn span(&self) -> (span: Span) {
        self.span
    }

    fn message(&self) -> (message: &str) {
        self.message
    }

    fn note(&self) -> (note: Option<(&str, Span)>) {
        match &self.note {
            Some((text, span)) => Some((text.as_str(), *span)),
            None => None,
        }
    }

    fn hint(&self) -> (hint: Option<&str>) {
        match &self.hint {
            None => None,
            Some(hint) => Some(hint.as_str()),
        }
    }
}

/// The error, and its note if it has one, point into an input of `len` bytes.
pub open spec fn type_located(error: TypeErrorView, len: nat) -> bool {
    &&& error.span.within(len)
    &&& error.note matches Some((_, place)) ==> place.within(len)
}

/// A typechecking result, either the typed value, or an error.
pub type TResult<T> = std::result::Result<T, TypeError>;

/// Any diagnostic of the front end.
#[derive(Debug)]
pub enum Diagnostic {
    Parse(ParseError),
    Type(TypeError),
}

/// The result of processing an input: the value, or the first diagnostic.
pub type Result<T> = std::result::Result<T, Diagnostic>;

/// The model of a [`Diagnostic`].
pub enum DiagnosticView {
    Parse(ParseError),
    Type(TypeErrorView),
}

impl View for Diagnostic {
    type V = DiagnosticView;

    open spec fn view(&self) -> DiagnosticView {
        match self {
            Diagnostic::Parse(e) => DiagnosticView::Parse(*e),
            Diagnostic::Type(e) => DiagnosticView::Type(e@),
        }
    }
}

impl From<ParseError> for Diagnostic {
    fn from(err: ParseError) -> (d: Diagnostic) {
        Diagnostic::Parse(err)
    }
}

impl vstd::std_specs::convert::FromSpecImpl<ParseError> for Diagnostic {
    open spec fn obeys_from_spec() -> bool {
        true
    }

    open spec fn from_spec(err: ParseError) -> Diagnostic {
        Diagnostic::Parse(err)
    }
}

impl From<TypeError> for Diagnostic {
    fn from(err: TypeError) -> (d: Diagnostic) {
        Diagnostic::Type(err)
    }
}

impl vstd::std_specs::convert::FromSpecImpl<TypeError> for Diagnostic {
    open spec fn obeys_from_spec() -> bool {
        true
    }

    open spec fn from_spec(err: TypeError) -> Diagnostic {
        Diagnostic::Type(err)
    }
}

impl Error for Diagnostic {
    open spec fn span_of(&self) -> Span {
        match self {
            Diagnostic::Parse(e) => e.span_of(),
            Diagnostic::Type(e) => e.span_of(),
        }
    }

    open spec fn message_of(&self) -> Seq<char> {
        match self {
            Diagnostic::Parse(e) => e.message_of(),
            Diagnostic::Type(e) => e.message_of(),
        }
    }

    open spec fn note_of(&self) -> Option<(Seq<char>, Span)> {
        match self {
            Diagnostic::Parse(e) => e.note_of(),
            Diagnostic::Type(e) => e.note_of(),
        }
    }

    open spec fn hint_of(&self) -> Option<Seq<char>> {
        match self {
            Diagnostic::Parse(e) => e.hint_of(),
            Diagnostic::Type(e) => e.hint_of(),
        }
    }

    fn span(&self) -> (span: Span) {
        match self {
            Diagnostic::Parse(e) => e.span(),
            Diagnostic::Type(e) => e.span(),
        }
    }

    fn message(&self) -> (message: &str) {
        match self {
            Diagnostic::Parse(e) => e.message(),
            Diagnostic::Type(e) => e.message(),
        }
    }

    fn note(&self) -> (note: Option<(&str, Span)>) {
        match self {
            Diagnostic::Parse(e) => e.note(),
            Diagnostic::Type(e) => e.note(),
        }
    }

    fn hint(&self) -> (hint: Option<&str>) {
        match self {
            Diagnostic::Parse(e) => e.hint(),
            Diagnostic::Type(e) => e.hint(),
        }
    }
}

/// The text that the standard library makes of bytes that need not be
/// UTF-8: every sequence of bytes that is no valid UTF-8 gives way to the
/// replacement character.
pub uninterp spec fn lossy_text(bytes: Seq<u8>) -> Seq<char>;

/// How many columns of a terminal a text takes, as `unicode-width` counts them.
pub uninterp spec fn display_width(text: Seq<char>) -> usize;

/// Turn bytes into text, with `String::from_utf8_lossy`.
///
/// The result is the text named above. For bytes that are valid UTF-8 the
/// standard library documents that it is the text that they encode.
#[verifier::external_body]
fn lossy(bytes: &[u8]) -> (text: String)
    ensures
        text@ == lossy_text(bytes@),
        valid_utf8(bytes@) ==> text@ == decode_utf8(bytes@),
{
    String::from_utf8_lossy(bytes).into_owned()
}

/// Measure the width of a text, with `UnicodeWidthStr::width` of the crate
/// `unicode-width`. The result is the width named above.
#[verifier::external_body]
fn width(text: &str) -> (columns: usize)
    ensures
        columns == display_width(text@),
{
    unicode_width::UnicodeWidthStr::width(text)
}

/// The character for a decimal digit.
pub open spec fn digit(d: nat) -> char {
    if d == 0 {
        '0'
    } else if d == 1 {
        '1'
    } else if d == 2 {
        '2'
    } else if d == 3 {
        '3'
    } else if d == 4 {
        '4'
    } else if d == 5 {
        '5'
    } else if d == 6 {
        '6'
    } else if d == 7 {
        '7'
    } else if d == 8 {
        '8'
    } else {
        '9'
    }
}

/// A number in decimal notation.
pub open spec fn decimal(n: nat) -> Seq<char>
    decreases n,
{
    if n < 10 {
        seq![digit(n)]
    } else {
        decimal(n / 10).push(digit(n % 10))
    }
}

/// The text of `count` times the character `c`.
pub open spec fn repeated(c: char, count: nat) -> Seq<char> {
    Seq::new(count, |i: int| c)
}

/// The text for a decimal digit.
fn digit_text(d: usize) -> (text: &'static str)
    requires
        d < 10,
    ensures
        text@ == seq![digit(d as nat)],
{
    proof {
        reveal_strlit("0");
        reveal_strlit("1");
        reveal_strlit("2");
        reveal_strlit("3");
        reveal_strlit("4");
        reveal_strlit("5");
        reveal_strlit("6");
        reveal_strlit("7");
        reveal_strlit("8");
        reveal_strlit("9");
    }
    let text = if d == 0 {
        "0"
    } else if d == 1 {
        "1"
    } else if d == 2 {
        "2"
    } else if d == 3 {
        "3"
    } else if d == 4 {
        "4"
    } else if d == 5 {
        "5"
    } else if d == 6 {
        "6"
    } else if d == 7 {
        "7"
    } else if d == 8 {
        "8"
    } else {
        "9"
    };
    proof {
        assert(text@ =~= seq![digit(d as nat)]);
    }
    text
}

/// Append a number in decimal notation to a text.
fn push_decimal(out: &mut String, n: usize)
    ensures
        final(out)@ == old(out)@ + decimal(n as nat),
    decreases n,
{
    if n >= 10 {
        push_decimal(out, n / 10);
    }
    out.append(digit_text(n % 10));
    proof {
        if n >= 10 {
            assert(final(out)@ =~= old(out)@ + decimal((n / 10) as nat).push(digit((n % 10) as nat)));
        } else {
            assert(old(out)@ + seq![digit(n as nat)] =~= old(out)@ + decimal(n as nat));
        }
    }
}

/// Append a character a number of times to a text. The character is given
/// as a text of that one character.
fn push_repeated(out: &mut String, c: &str, count: usize)
    requires
        c@.len() == 1,
    ensures
        final(out)@ == old(out)@ + repeated(c@[0], count as nat),
{
    let mut i: usize = 0;
    proof {
        assert(out@ =~= old(out)@ + repeated(c@[0], 0));
    }
    while i < count
        invariant
            i <= count,
            c@.len() == 1,
            out@ == old(out)@ + repeated(c@[0], i as nat),
        decreases count - i,
    {
        out.append(c);
        proof {
            assert(old(out)@ + repeated(c@[0], i as nat) + c@ =~= old(out)@ + repeated(
                c@[0],
                (i + 1) as nat,
            ));
        }
        i += 1;
    }
}

/// The snippet that shows a place in the source: the name of the file with
/// the number of the line and the column, the line itself behind a gutter
/// with its number, and a caret under the place, as wide as what is marked
/// and at least one column wide, in the colour `colour`.
pub open spec fn snippet_text(
    fname: Seq<char>,
    line: nat,
    column: nat,
    line_text: Seq<char>,
    indent_width: nat,
    mark_width: nat,
    colour: Seq<char>,
) -> Seq<char> {
    let pad = repeated(' ', decimal(line).len());
    let tildes = if mark_width > 1 {
        (mark_width - 1) as nat
    } else {
        0
    };
    pad + "--> "@ + fname + ":"@ + decimal(line) + ":"@ + decimal(column) + "\n"@ + pad + " |\n"@
        + decimal(line) + " | "@ + line_text + "\n"@ + pad + " | "@ + repeated(' ', indent_width)
        + colour + "^"@ + repeated('~', tildes) + "\x1b[0m"@ + "\n"@
}

/// Build the snippet for a place in the source, from the line that holds
/// the place and the widths of what stands before the place and of what is
/// marked.
pub fn snippet(
    fname: &str,
    line: usize,
    column: usize,
    line_text: &str,
    indent_width: usize,
    mark_width: usize,
    colour: &str,
) -> (text: String)
    ensures
        text@ == snippet_text(
            fname@,
            line as nat,
            column as nat,
            line_text@,
            indent_width as nat,
            mark_width as nat,
            colour@,
        ),
{
    proof {
        reveal_strlit(" ");
        reveal_strlit("~");
    }
    let mut number = String::new();
    push_decimal(&mut number, line);
    proof {
        assert(number@ =~= decimal(line as nat));
    }
    let digits: usize = number.as_str().unicode_len();
    let mut pad = String::new();
    push_repeated(&mut pad, " ", digits);
    proof {
        assert(pad@ =~= repeated(' ', decimal(line as nat).len()));
    }
    let tildes: usize = if mark_width > 1 {
        mark_width - 1
    } else {
        0
    };

    let mut result = String::new();
    result.append(pad.as_str());
    result.append("--> ");
    result.append(fname);
    result.append(":");
    push_decimal(&mut result, line);
    result.append(":");
    push_decimal(&mut result, column);
    result.append("\n");
    result.append(pad.as_str());
    result.append(" |\n");
    result.append(number.as_str());
    result.append(" | ");
    result.append(line_text);
    result.append("\n");
    result.append(pad.as_str());
    result.append(" | ");
    push_repeated(&mut result, " ", indent_width);
    result.append(colour);
    result.append("^");
    push_repeated(&mut result, "~", tildes);
    result.append("\x1b[0m");
    result.append("\n");
    proof {
        assert(result@ =~= snippet_text(
            fname@,
            line as nat,
            column as nat,
            line_text@,
            indent_width as nat,
            mark_width as nat,
            colour@,
        ));
    }
    result
}

/// The start of the line that holds position `at`: behind the last line
/// feed before `at`, or the start of the input.
pub open spec fn line_start(bytes: Seq<u8>, at: int) -> int
    decreases at,
{
    if at <= 0 || at > bytes.len() {
        0
    } else if bytes[at - 1] == 0x0a {
        at
    } else {
        line_start(bytes, at - 1)
    }
}

/// The end of the line that starts at `start`: the first line feed from
/// `start` on, or the end of the input. A line feed right at `start` makes
/// the line an empty one.
pub open spec fn line_end(bytes: Seq<u8>, start: int) -> int {
    match find_byte(bytes, start, bytes.len() as int, 0x0a) {
        Some(feed) => feed,
        None => bytes.len() as int,
    }
}

/// The snippet that shows `span` in the input.
///
/// The line is the one in which the span starts, and its number counts
/// from one. The column is the number of bytes before the span in the
/// line. The mark is as wide as the part of the span that lies in the line.
/// Widths are those of the text as it is displayed.
pub open spec fn highlighted(fname: Seq<char>, bytes: Seq<u8>, span: Span, colour: Seq<char>) -> Seq<
    char,
> {
    let start = line_start(bytes, span.start as int);
    let end = line_end(bytes, start);
    let mark_end = if span.end < end {
        span.end as int
    } else {
        end
    };
    let marked = display_width(lossy_text(bytes.subrange(span.start as int, mark_end)));
    snippet_text(
        fname,
        1 + count_byte(bytes, 0, span.start as int, 0x0a),
        (span.start - start) as nat,
        lossy_text(bytes.subrange(start, end)),
        display_width(lossy_text(bytes.subrange(start, span.start as int))) as nat,
        if marked > 1 {
            marked as nat
        } else {
            1
        },
        colour,
    )
}

/// Find the start of the line that holds position `at`.
fn find_line_start(input: &[u8], at: usize) -> (start: usize)
    requires
        at <= input@.len(),
    ensures
        start == line_start(input@, at as int),
        start <= at,
        forall|i: int| start <= i < at ==> input@[i] != 0x0a,
{
    let mut i: usize = at;
    while i > 0 && input[i - 1] != 0x0a
        invariant
            i <= at <= input@.len(),
            line_start(input@, at as int) == line_start(input@, i as int),
            forall|k: int| i <= k < at ==> input@[k] != 0x0a,
        decreases i,
    {
        i -= 1;
    }
    i
}

/// Show where a span lies in the input: the line that it starts in, with
/// a caret under the span.
pub fn highlight_span_in_line(fname: &str, input: &[u8], span: Span, highlight_ansi: &str) -> (text:
    String)
    requires
        span.start <= span.end,
        span.start <= input@.len() < usize::MAX,
    ensures
        text@ == highlighted(fname@, input@, span, highlight_ansi@),
{
    // Locate the line that contains the error.
    let line: usize = 1 + count_occurrences(input, 0, span.start, 0x0a);
    let line_start: usize = find_line_start(input, span.start);
    let line_end: usize = match find_first(input, line_start, input.len(), 0x0a) {
        Some(feed) => feed,
        None => input.len(),
    };
    proof {
        // There is no line feed between the start of the line and the span.
        match find_byte(input@, line_start as int, input@.len() as int, 0x0a) {
            Some(feed) => {
                if feed < span.start {
                    assert(input@[feed] != 0x0a);
                }
            },
            None => {},
        }
    }

    // Try as best as we can to report the error. However, if the parse failed
    // because the input was invalid UTF-8, there is little we can do.
    let line_content = lossy(slice_subrange(input, line_start, line_end));

    // The length of the mark can be longer than the line, for example when
    // token to mark was a multiline string literal. In that case, highlight
    // only up to the newline, don't extend the tildes too far.
    let mark_end: usize = if span.end < line_end {
        span.end
    } else {
        line_end
    };
    let indent_content = lossy(slice_subrange(input, line_start, span.start));
    let error_content = lossy(slice_subrange(input, span.start, mark_end));

    // The width of the error is not necessarily the number of bytes,
    // measure the Unicode width of the span to underline.
    let indent_width: usize = width(indent_content.as_str());
    let error_width: usize = width(error_content.as_str());
    let mark_width: usize = if error_width > 1 {
        error_width
    } else {
        1
    };

    snippet(
        fname,
        line,
        span.start - line_start,
        line_content.as_str(),
        indent_width,
        mark_width,
        highlight_ansi,
    )
}

/// Whether a span can be shown in an input of `len` bytes: it does not
/// end before it starts, and it starts inside the input or at its end.
pub open spec fn showable(span: Span, len: nat) -> bool {
    span.start <= span.end && span.start <= len
}

/// A line with a label in a colour and a text behind it.
pub open spec fn labelled(colour: Seq<char>, label: Seq<char>, text: Seq<char>) -> Seq<char> {
    colour + label + "\x1b[0m"@ + " "@ + text + "\n"@
}

/// The part of a report that shows a note: an empty line, the place of the
/// note, and the note, in yellow.
pub open spec fn note_text(note: Option<(Seq<char>, Span)>, fname: Seq<char>, bytes: Seq<u8>) -> Seq<
    char,
> {
    match note {
        Some((text, place)) => "\n"@ + highlighted(fname, bytes, place, "\x1b[33;1m"@) + labelled(
            "\x1b[33;1m"@,
            "Note:"@,
            text,
        ),
        None => Seq::empty(),
    }
}

/// The part of a report that shows a hint: an empty line and the hint, in yellow.
pub open spec fn hint_text(hint: Option<Seq<char>>) -> Seq<char> {
    match hint {
        Some(text) => "\n"@ + labelled("\x1b[33;1m"@, "Hint:"@, text),
        None => Seq::empty(),
    }
}

/// The report of a diagnostic on a terminal: the place of the error and the
/// message in red, then the place of the note and the note, if there is
/// one, and the hint, if there is one, both in yellow.
pub open spec fn report_text(
    span: Span,
    message: Seq<char>,
    note: Option<(Seq<char>, Span)>,
    hint: Option<Seq<char>>,
    fname: Seq<char>,
    bytes: Seq<u8>,
) -> Seq<char> {
    highlighted(fname, bytes, span, "\x1b[31;1m"@) + labelled("\x1b[31;1m"@, "Error:"@, message)
        + note_text(note, fname, bytes) + hint_text(hint)
}

/// Append a line with a label in a colour and a text behind it.
fn push_labelled(out: &mut String, colour: &str, label: &str, text: &str)
    ensures
        final(out)@ == old(out)@ + labelled(colour@, label@, text@),
{
    out.append(colour);
    out.append(label);
    out.append("\x1b[0m");
    out.append(" ");
    out.append(text);
    out.append("\n");
    proof {
        assert(out@ =~= old(out)@ + labelled(colour@, label@, text@));
    }
}

/// Build the report of a diagnostic, as it is printed for the user.
pub fn report<E: Error>(error: &E, fname: &str, input: &[u8]) -> (text: String)
    requires
        input@.len() < usize::MAX,
        showable(error.span_of(), input@.len()),
        error.note_of() matches Some((_, place)) ==> showable(place, input@.len()),
    ensures
        text@ == report_text(
            error.span_of(),
            error.message_of(),
            error.note_of(),
            error.hint_of(),
            fname@,
            input@,
        ),
{
    let bold_red = "\x1b[31;1m";
    let bold_yellow = "\x1b[33;1m";

    let mut text = highlight_span_in_line(fname, input, error.span(), bold_red);
    push_labelled(&mut text, bold_red, "Error:", error.message());
    let ghost head = text@;

    if let Some((note, note_span)) = error.note() {
        let highlight = highlight_span_in_line(fname, input, note_span, bold_yellow);
        text.append("\n");
        text.append(highlight.as_str());
        push_labelled(&mut text, bold_yellow, "Note:", note);
    }
    proof {
        assert(text@ =~= head + note_text(error.note_of(), fname@, input@));
    }
    let ghost middle = text@;

    if let Some(hint) = error.hint() {
        text.append("\n");
        push_labelled(&mut text, bold_yellow, "Hint:", hint);
    }
    proof {
        assert(text@ =~= middle + hint_text(error.hint_of()));
    }
    text
}

} // verus!
