use squiller::cli::{parse, Cmd};

fn parse_slice(args: &[&'static str]) -> Result<Cmd, String> {
    let argv = args.iter().map(|&s| s.into()).collect();
    parse(argv)
}

#[test]
fn parse_parses_help() {
    let expected = Ok(Cmd::Help);
    assert_eq!(parse_slice(&["squiller", "-h"]), expected);
    assert_eq!(parse_slice(&["squiller", "--help"]), expected);
    assert_eq!(parse_slice(&["squiller", "--version", "--help"]), expected);
}

#[test]
fn parse_parses_version() {
    let expected = Ok(Cmd::Version);
    assert_eq!(parse_slice(&["squiller", "--version"]), expected);
    assert_eq!(parse_slice(&["squiller", "--help", "--version"]), expected);
}

#[test]
fn parse_parses_target_help() {
    let expected = Ok(Cmd::TargetHelp);
    assert_eq!(parse_slice(&["squiller", "--target=help"]), expected);
    assert_eq!(parse_slice(&["squiller", "--target", "help"]), expected);
    assert_eq!(parse_slice(&["squiller", "-t", "help"]), expected);
    assert_eq!(parse_slice(&["squiller", "-thelp"]), expected);
}

#[test]
fn parse_parses_generate() {
    let expected = Ok(Cmd::Generate {
        target: "foo".into(),
        fnames: vec!["bar".into(), "baz".into()],
    });
    assert_eq!(parse_slice(&["squiller", "-tfoo", "bar", "baz"]), expected);
    assert_eq!(
        parse_slice(&["squiller", "--target=foo", "bar", "baz"]),
        expected,
    );
    assert_eq!(
        parse_slice(&["squiller", "bar", "baz", "-t", "foo"]),
        expected,
    );
    assert_eq!(
        parse_slice(&["squiller", "--target=foo", "bar", "--", "baz"]),
        expected,
    );
}

#[test]
fn parse_handles_raw_args() {
    let expected = Ok(Cmd::Generate {
        target: "foo".into(),
        fnames: vec!["--bar".into(), "--".into(), "-t".into()],
    });
    assert_eq!(
        parse_slice(&["squiller", "-tfoo", "--", "--bar", "--", "-t"]),
        expected,
    );
}

#[test]
fn parse_handles_dash_as_arg() {
    let expected = Ok(Cmd::Generate {
        target: "foo".into(),
        fnames: vec!["-".into()],
    });
    assert_eq!(
        parse_slice(&["squiller", "-tfoo", "-"]),
        expected,
    );
}

#[test]
fn parse_returns_error_on_misuse() {
    assert_eq!(
        parse_slice(&["squiller", "--frobnicate"]),
        Err("Unknown option '--frobnicate'.".into()),
    );
    assert_eq!(
        parse_slice(&["squiller", "--target"]),
        Err("Expected target name after '--target'.".into()),
    );
    assert_eq!(
        parse_slice(&["squiller", "--target", "-h"]),
        Err("Expected target name after '--target'.".into()),
    );
    assert_eq!(
        parse_slice(&["squiller", "-t"]),
        Err("Expected target name after '-t'.".into()),
    );
    assert_eq!(
        parse_slice(&["squiller"]),
        Err("No target specified.".into()),
    );
    assert_eq!(
        parse_slice(&["squiller", "--target=foo"]),
        Err("No input files specified.".into()),
    );
}

#[test]
fn parse_splits_options_from_their_values() {
    assert_eq!(
        parse_slice(&["squiller", "--target=a=b", "f"]),
        Ok(Cmd::Generate { target: "a=b".into(), fnames: vec!["f".into()] }),
    );
    assert_eq!(
        parse_slice(&["squiller", "f", "-trust-sqlite"]),
        Ok(Cmd::Generate { target: "rust-sqlite".into(), fnames: vec!["f".into()] }),
    );
    assert_eq!(parse_slice(&["squiller", "-hx"]), Ok(Cmd::Help));
    assert_eq!(
        parse_slice(&["squiller", "-x"]),
        Err("Unknown option '-x'.".into()),
    );
    assert_eq!(
        parse_slice(&["squiller", "--help=me"]),
        Ok(Cmd::Help),
    );
    assert_eq!(
        parse_slice(&["squiller", "--", "--target", "x"]),
        Err("No target specified.".into()),
    );
    assert_eq!(parse_slice(&[]), Err("No target specified.".into()));
    assert_eq!(
        parse_slice(&["squiller", "-t", "--", "x"]),
        Err("No input files specified.".into()),
    );
}
