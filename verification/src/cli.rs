//! The command line of the tool: from the arguments to the command to run.
use crate::text::bytes_equal;
use vstd::prelude::*;
use vstd::string::{StrSliceExecFns, StringExecFns, StringSliceAdditionalSpecFns};

verus! {

/// What `--help` prints.
pub const USAGE: &'static str = r#"
Squiller -- Generate boilerplate from annotated SQL queries.

Usage:
  squiller --target <target> <file>...
  squiller --target help
  squiller -h | --help
  squiller --version

Arguments:
  <file>...             One or more input files to process, or '-' for stdin.

Options:
  -h --help             Show this screen.
  -t --target <target>  Target to generate code for, use '--target=help' to
                        list supported targets.
  --version             Show version.
"#;

/// What the user asks for.
#[derive(Debug, PartialEq, Eq)]
pub enum Cmd {
    Generate { target: String, fnames: Vec<String> },
    TargetHelp,
    Help,
    Version,
}

/// The model of a [`Cmd`].
pub enum CmdView {
    Generate { target: Seq<char>, fnames: Seq<Seq<char>> },
    TargetHelp,
    Help,
    Version,
}

impl View for Cmd {
    type V = CmdView;

    open spec fn view(&self) -> CmdView {
        match self {
            Cmd::Generate { target, fnames } => CmdView::Generate {
                target: target@,
                fnames: fnames@.map_values(|name: String| name@),
            },
            Cmd::TargetHelp => CmdView::TargetHelp,
            Cmd::Help => CmdView::Help,
            Cmd::Version => CmdView::Version,
        }
    }
}

/// One argument as the parser sees it: a plain word, a short option
/// (`-x`) or a long option (`--xyz`), without its dashes.
pub enum Arg<T> {
    Plain(T),
    Short(T),
    Long(T),
}

impl Arg<String> {
    /// The model of the argument.
    pub open spec fn view(&self) -> Arg<Seq<char>> {
        match self {
            Arg::Plain(x) => Arg::Plain(x@),
            Arg::Short(x) => Arg::Short(x@),
            Arg::Long(x) => Arg::Long(x@),
        }
    }

    fn as_ref(&self) -> (r: Arg<&str>)
        ensures
            match r {
                Arg::Plain(x) => self@ == Arg::Plain(x@),
                Arg::Short(x) => self@ == Arg::Short(x@),
                Arg::Long(x) => self@ == Arg::Long(x@),
            },
    {
        match self {
            Arg::Plain(x) => Arg::Plain(x.as_str()),
            Arg::Short(x) => Arg::Short(x.as_str()),
            Arg::Long(x) => Arg::Long(x.as_str()),
        }
    }

    fn into_string(self) -> (r: String)
        ensures
            r@ == word(self@),
    {
        match self {
            Arg::Plain(x) => x,
            Arg::Short(x) => x,
            Arg::Long(x) => x,
        }
    }

    /// The argument as the user wrote it, with its dashes.
    fn to_string(&self) -> (r: String)
        ensures
            r@ == shown(self@),
    {
        match self {
            Arg::Plain(x) => String::from_str(x.as_str()),
            Arg::Short(x) => String::from_str("-").concat(x.as_str()),
            Arg::Long(x) => String::from_str("--").concat(x.as_str()),
        }
    }
}

/// The word of an argument, without dashes.
pub open spec fn word(arg: Arg<Seq<char>>) -> Seq<char> {
    match arg {
        Arg::Plain(x) => x,
        Arg::Short(x) => x,
        Arg::Long(x) => x,
    }
}

/// The argument as the user wrote it, with its dashes.
pub open spec fn shown(arg: Arg<Seq<char>>) -> Seq<char> {
    match arg {
        Arg::Plain(x) => x,
        Arg::Short(x) => "-"@ + x,
        Arg::Long(x) => "--"@ + x,
    }
}

/// Where the iterator over the arguments is.
pub struct Cursor {
    /// The index of the next argument.
    pub index: int,
    /// Whether we have observed a `--` argument.
    pub is_raw: bool,
    /// Leftover to return after an `--foo=bar` or `-fbar`-style argument.
    ///
    /// `--foo=bar` is returned as `Long(foo)` followed by `Plain(bar)`.
    /// `-fbar` is returned as `Short(f)` followed by `Plain(bar)`.
    pub leftover: Option<Seq<char>>,
}

/// The first index from `from` on at which `c` stands in `text`.
pub open spec fn index_of(text: Seq<char>, c: char, from: int) -> Option<int>
    decreases text.len() - from,
{
    if from < 0 || from >= text.len() {
        None
    } else if text[from] == c {
        Some(from)
    } else {
        index_of(text, c, from + 1)
    }
}

/// Whether `text` starts with `prefix`.
pub open spec fn starts_with(text: Seq<char>, prefix: Seq<char>) -> bool {
    prefix.len() <= text.len() && text.take(prefix.len() as int) == prefix
}

/// What the argument `arg` is, when it is not taken as it stands, and
/// what is left over of it.
///
/// * `--name=value` is the long option `name`, and `value` is left over.
/// * `--name` is the long option `name`.
/// * `-` is a plain word.
/// * `-xrest` is the short option `x`, and `rest` is left over.
/// * Everything else is a plain word.
pub open spec fn classify(arg: Seq<char>) -> (Arg<Seq<char>>, Option<Seq<char>>) {
    if starts_with(arg, "--"@) {
        let flag = arg.skip(2);
        match index_of(flag, '=', 0) {
            Some(i) => (Arg::Long(flag.take(i)), Some(flag.skip(i + 1))),
            None => (Arg::Long(flag), None),
        }
    } else if arg == "-"@ {
        (Arg::Plain(arg), None)
    } else if starts_with(arg, "-"@) {
        let flag = arg.skip(1);
        if flag.len() > 1 {
            (Arg::Short(flag.take(1)), Some(flag.skip(1)))
        } else {
            (Arg::Short(flag), None)
        }
    } else {
        (Arg::Plain(arg), None)
    }
}

/// The next argument from `cursor` on, if there is one, and the cursor
/// behind it. What is left over of the last argument comes first. After an
/// argument `--` every argument is a plain word.
pub open spec fn next_arg(argv: Seq<Seq<char>>, cursor: Cursor) -> (Option<Arg<Seq<char>>>, Cursor) {
    let index = cursor.index;
    if cursor.leftover is Some {
        (Some(Arg::Plain(cursor.leftover->Some_0)), Cursor { leftover: None, ..cursor })
    } else if !(0 <= index < argv.len()) {
        (None, cursor)
    } else if cursor.is_raw {
        (Some(Arg::Plain(argv[index])), Cursor { index: index + 1, ..cursor })
    } else if argv[index] == "--"@ {
        if index + 1 < argv.len() {
            (
                Some(Arg::Plain(argv[index + 1])),
                Cursor { index: index + 2, is_raw: true, leftover: None },
            )
        } else {
            (None, Cursor { index: index + 1, is_raw: true, leftover: None })
        }
    } else {
        (
            Some(classify(argv[index]).0),
            Cursor { index: index + 1, is_raw: false, leftover: classify(argv[index]).1 },
        )
    }
}

/// What the parser has seen so far.
pub struct Progress {
    pub cursor: Cursor,
    pub fnames: Seq<Seq<char>>,
    pub target: Option<Seq<char>>,
    pub is_help: bool,
    pub is_version: bool,
}

/// The command for what was seen, when all arguments are read. Help goes
/// before the version, and both go before everything else.
pub open spec fn command_of(progress: Progress) -> Result<CmdView, Seq<char>> {
    if progress.is_help {
        Ok(CmdView::Help)
    } else if progress.is_version {
        Ok(CmdView::Version)
    } else if progress.target is None {
        Err("No target specified."@)
    } else if progress.target->Some_0 == "help"@ {
        Ok(CmdView::TargetHelp)
    } else if progress.fnames.len() == 0 {
        Err("No input files specified."@)
    } else {
        Ok(CmdView::Generate { target: progress.target->Some_0, fnames: progress.fnames })
    }
}

/// How far the cursor is from the end of the arguments.
pub open spec fn distance(argv: Seq<Seq<char>>, cursor: Cursor) -> int {
    2 * (argv.len() - cursor.index) + if cursor.leftover is Some {
        1int
    } else {
        0int
    }
}

/// The command that the arguments from the cursor on ask for, given what
/// was seen before, or the message for the first argument that is wrong.
///
/// * A plain word is the name of an input file.
/// * `-t` and `--target` take the next argument as the target, which must
///   be a plain word.
/// * `--version`, and `-h` or `--help`: the last of them counts.
/// * No other option is known.
pub open spec fn parse_from(argv: Seq<Seq<char>>, progress: Progress) -> Result<CmdView, Seq<char>>
    decreases distance(argv, progress.cursor),
{
    let cursor = progress.cursor;
    if cursor.index < 0 || cursor.index > argv.len() {
        command_of(progress)
    } else {
        let (arg, behind) = next_arg(argv, cursor);
        match arg {
            None => command_of(progress),
            Some(Arg::Plain(name)) => parse_from(
                argv,
                Progress { cursor: behind, fnames: progress.fnames.push(name), ..progress },
            ),
            Some(arg) => if arg == Arg::Short("t"@) || arg == Arg::Long("target"@) {
                match next_arg(argv, behind) {
                    (Some(Arg::Plain(target)), after) => parse_from(
                        argv,
                        Progress { cursor: after, target: Some(target), ..progress },
                    ),
                    _ => Err("Expected target name after '"@ + shown(arg) + "'."@),
                }
            } else if arg == Arg::Long("version"@) {
                parse_from(
                    argv,
                    Progress { cursor: behind, is_help: false, is_version: true, ..progress },
                )
            } else if arg == Arg::Short("h"@) || arg == Arg::Long("help"@) {
                parse_from(
                    argv,
                    Progress { cursor: behind, is_help: true, is_version: false, ..progress },
                )
            } else {
                Err("Unknown option '"@ + shown(arg) + "'."@)
            },
        }
    }
}

/// The command that the arguments of a program ask for. The first
/// argument is the name of the program, and does not count.
pub open spec fn parsed(argv: Seq<Seq<char>>) -> Result<CmdView, Seq<char>> {
    parse_from(
        argv,
        Progress {
            cursor: next_arg(argv, Cursor { index: 0, is_raw: false, leftover: None }).1,
            fnames: Seq::empty(),
            target: None,
            is_help: false,
            is_version: false,
        },
    )
}

} // verus!

verus! {

/// The model of a list of arguments.
pub open spec fn words(args: Seq<String>) -> Seq<Seq<char>> {
    args.map_values(|arg: String| arg@)
}

/// Compare two texts.
fn text_equals(a: &str, b: &str) -> (r: bool)
    ensures
        r == (a@ == b@),
{
    let r = bytes_equal(a.as_bytes(), b.as_bytes());
    proof {
        vstd::utf8::encode_utf8_decode_utf8(a@);
        vstd::utf8::encode_utf8_decode_utf8(b@);
    }
    r
}

/// Find the first `c` in a text.
fn find_char(text: &str, c: char) -> (r: Option<usize>)
    ensures
        match r {
            Some(i) => index_of(text@, c, 0) == Some(i as int) && i < text@.len(),
            None => index_of(text@, c, 0) is None,
        },
{
    let n: usize = text.unicode_len();
    let mut i: usize = 0;
    while i < n
        invariant
            i <= n == text@.len(),
            index_of(text@, c, 0) == index_of(text@, c, i as int),
        decreases n - i,
    {
        if text.get_char(i) == c {
            return Some(i);
        }
        i += 1;
    }
    None
}

/// Decide what an argument is, and what is left over of it.
fn classify_arg(arg: &str) -> (r: (Arg<String>, Option<String>))
    ensures
        r.0@ == classify(arg@).0,
        match r.1 {
            Some(rest) => classify(arg@).1 == Some(rest@),
            None => classify(arg@).1 is None,
        },
{
    proof {
        reveal_strlit("--");
        reveal_strlit("-");
    }
    let n: usize = arg.unicode_len();
    if n >= 2 && arg.get_char(0) == '-' && arg.get_char(1) == '-' {
        proof {
            assert(arg@.take(2) =~= "--"@);
        }
        let flag = arg.substring_char(2, n);
        proof {
            assert(flag@ =~= arg@.skip(2));
        }
        match find_char(flag, '=') {
            Some(i) => {
                let name = flag.substring_char(0, i);
                let value = flag.substring_char(i + 1, n - 2);
                proof {
                    assert(name@ =~= flag@.take(i as int));
                    assert(value@ =~= flag@.skip(i + 1));
                }
                return (Arg::Long(String::from_str(name)), Some(String::from_str(value)));
            },
            None => {
                return (Arg::Long(String::from_str(flag)), None);
            },
        }
    }
    proof {
        if starts_with(arg@, "--"@) {
            assert(arg@.take(2)[0] == '-' && arg@.take(2)[1] == '-');
        }
    }
    if n == 1 && arg.get_char(0) == '-' {
        proof {
            assert(arg@ =~= "-"@);
        }
        return (Arg::Plain(String::from_str(arg)), None);
    }
    if n >= 1 && arg.get_char(0) == '-' {
        proof {
            assert(arg@.take(1) =~= "-"@);
        }
        let flag = arg.substring_char(1, n);
        proof {
            assert(flag@ =~= arg@.skip(1));
        }
        if n - 1 > 1 {
            let name = flag.substring_char(0, 1);
            let rest = flag.substring_char(1, n - 1);
            proof {
                assert(name@ =~= flag@.take(1));
                assert(rest@ =~= flag@.skip(1));
            }
            return (Arg::Short(String::from_str(name)), Some(String::from_str(rest)));
        }
        return (Arg::Short(String::from_str(flag)), None);
    }
    proof {
        if starts_with(arg@, "-"@) {
            assert(arg@.take(1)[0] == '-');
        }
    }
    (Arg::Plain(String::from_str(arg)), None)
}

/// The iterator over the arguments of the program.
pub struct ArgIter {
    /// The arguments.
    args: Vec<String>,
    /// The index of the next argument.
    index: usize,
    /// Whether we have observed a `--` argument.
    is_raw: bool,
    /// Leftover to return after an `--foo=bar` or `-fbar`-style argument.
    leftover: Option<String>,
}

impl ArgIter {
    /// The arguments that the iterator goes over.
    pub closed spec fn argv(&self) -> Seq<Seq<char>> {
        words(self.args@)
    }

    /// Where the iterator is.
    pub closed spec fn cursor(&self) -> Cursor {
        Cursor {
            index: self.index as int,
            is_raw: self.is_raw,
            leftover: match self.leftover {
                Some(rest) => Some(rest@),
                None => None,
            },
        }
    }

    /// An iterator at the first of the arguments.
    pub fn new(args: Vec<String>) -> (iter: ArgIter)
        ensures
            iter.argv() == words(args@),
            iter.cursor() == (Cursor { index: 0, is_raw: false, leftover: None }),
    {
        ArgIter { args: args, index: 0, is_raw: false, leftover: None }
    }

    /// The next argument, if there is one.
    pub fn next(&mut self) -> (r: Option<Arg<String>>)
        requires
            old(self).cursor().index <= old(self).argv().len(),
        ensures
            final(self).argv() == old(self).argv(),
            final(self).cursor() == next_arg(old(self).argv(), old(self).cursor()).1,
            final(self).cursor().index <= final(self).argv().len(),
            distance(final(self).argv(), final(self).cursor()) <= distance(
                old(self).argv(),
                old(self).cursor(),
            ),
            r is Some ==> distance(final(self).argv(), final(self).cursor()) < distance(
                old(self).argv(),
                old(self).cursor(),
            ),
            match r {
                Some(arg) => next_arg(old(self).argv(), old(self).cursor()).0 == Some(arg@),
                None => next_arg(old(self).argv(), old(self).cursor()).0 is None,
            },
    {
        if self.leftover.is_some() {
            let rest = self.leftover.take().unwrap();
            return Some(Arg::Plain(rest));
        }
        if self.index >= self.args.len() {
            return None;
        }
        assert(self.argv()[self.index as int] == self.args@[self.index as int]@);
        let arg = self.args[self.index].clone();
        self.index += 1;

        if self.is_raw {
            return Some(Arg::Plain(arg));
        }
        if text_equals(arg.as_str(), "--") {
            self.is_raw = true;
            if self.index >= self.args.len() {
                return None;
            }
            assert(self.argv()[self.index as int] == self.args@[self.index as int]@);
            let plain = self.args[self.index].clone();
            self.index += 1;
            return Some(Arg::Plain(plain));
        }
        let (found, rest) = classify_arg(arg.as_str());
        self.leftover = rest;
        Some(found)
    }
}

/// The message for an option that is wrong: `start`, the option as the
/// user wrote it, and `'.`.
fn option_message(start: &str, arg: &Arg<String>) -> (message: String)
    ensures
        message@ == start@ + shown(arg@) + "'."@,
{
    let shown = arg.to_string();
    String::from_str(start).concat(shown.as_str()).concat("'.")
}

/// Find out what the arguments of the program ask for. The first argument
/// is the name of the program.
pub fn parse(argv: Vec<String>) -> (r: Result<Cmd, String>)
    ensures
        match parsed(words(argv@)) {
            Ok(cmd) => r matches Ok(c) && c@ == cmd,
            Err(message) => r matches Err(m) && m@ == message,
        },
{
    let ghost all = words(argv@);
    let mut args = ArgIter::new(argv);

    // Skip executable name.
    args.next();

    let mut fnames: Vec<String> = Vec::new();
    let mut target: Option<String> = None;
    let mut is_help = false;
    let mut is_version = false;
    proof {
        assert(words(fnames@) =~= Seq::empty());
    }

    loop
        invariant_except_break
            parse_from(
                all,
                Progress {
                    cursor: args.cursor(),
                    fnames: words(fnames@),
                    target: match target {
                        Some(t) => Some(t@),
                        None => None,
                    },
                    is_help,
                    is_version,
                },
            ) == parsed(all),
        invariant
            all == words(argv@),
            args.argv() == all,
            args.cursor().index <= all.len(),
        ensures
            command_of(
                Progress {
                    cursor: args.cursor(),
                    fnames: words(fnames@),
                    target: match target {
                        Some(t) => Some(t@),
                        None => None,
                    },
                    is_help,
                    is_version,
                },
            ) == parsed(all),
        decreases distance(all, args.cursor()),
    {
        let arg = match args.next() {
            Some(arg) => arg,
            None => break ,
        };
        let is_plain = match &arg {
            Arg::Plain(_) => true,
            _ => false,
        };
        if is_plain {
            let ghost before = words(fnames@);
            let ghost name = word(arg@);
            fnames.push(arg.into_string());
            proof {
                assert(words(fnames@) =~= before.push(name));
            }
            continue ;
        }
        let (is_target, is_version_flag, is_help_flag) = match arg.as_ref() {
            Arg::Short(x) => (text_equals(x, "t"), false, text_equals(x, "h")),
            Arg::Long(x) => (
                text_equals(x, "target"),
                text_equals(x, "version"),
                text_equals(x, "help"),
            ),
            Arg::Plain(_) => (false, false, false),
        };
        if is_target {
            match args.next() {
                Some(Arg::Plain(t)) => target = Some(t),
                _ => return Err(option_message("Expected target name after '", &arg)),
            }
        } else if is_version_flag {
            is_help = false;
            is_version = true;
        } else if is_help_flag {
            is_version = false;
            is_help = true;
        } else {
            return Err(option_message("Unknown option '", &arg));
        }
    }

    if is_help {
        return Ok(Cmd::Help);
    }
    if is_version {
        return Ok(Cmd::Version);
    }
    let target = match target {
        None => return Err(String::from_str("No target specified.")),
        Some(t) => t,
    };

    if text_equals(target.as_str(), "help") {
        return Ok(Cmd::TargetHelp);
    }
    if fnames.len() == 0 {
        return Err(String::from_str("No input files specified."));
    }
    Ok(Cmd::Generate { target, fnames })
}

} // verus!
