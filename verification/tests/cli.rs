use mempe::cli::{parse, parse_u32, Argument, Command, Request, HELP};
use mempe::error::AppError;
use mempe::pe::EntryPointRva;

fn args(values: &[&str]) -> Vec<Argument> {
    values
        .iter()
        .map(|value| Argument { text: value.to_string(), valid: true })
        .collect()
}

#[test]
fn parses_decimal_and_hex_pid() -> Result<(), AppError> {
    let decimal = parse(&args(&["mempe", "-p", "4216"]))?;
    let hexadecimal = parse(&args(&["mempe", "-p", "0x1078"]))?;

    assert_eq!(decimal, hexadecimal);
    assert!(matches!(
        decimal,
        Some(Request {
            command: Command::Pid(_),
            ..
        })
    ));
    Ok(())
}

#[test]
fn rejects_paths_in_watch_mode() {
    let result = parse(&args(&["mempe", "-w", "C:\\tools\\program.exe"]));

    assert!(result.is_err());
    assert_ne!(result, Ok(None));
}

#[test]
fn help_requires_no_tail() {
    let help = parse(&args(&["mempe", "-h"]));
    let invalid = parse(&args(&["mempe", "-h", "extra"]));

    assert_eq!(help, Ok(None));
    assert!(invalid.is_err());
}

#[test]
fn parses_manual_entry_point_rva() -> Result<(), AppError> {
    let request = parse(&args(&["mempe", "-p", "4216", "--entry-point", "0x31A20"]))?
        .ok_or(AppError::fixed("request is missing"))?;

    assert!(matches!(request.command, Command::Pid(_)));
    assert_eq!(request.entry_point, EntryPointRva::new(0x31A20));
    Ok(())
}

#[test]
fn rejects_zero_or_incomplete_entry_point() {
    let zero = parse(&args(&["mempe", "-p", "4216", "-e", "0"]));
    let missing = parse(&args(&["mempe", "-p", "4216", "--entry-point"]));

    assert!(zero.is_err());
    assert!(missing.is_err());
}

fn failure(values: &[&str]) -> String {
    parse(&args(values)).unwrap_err().message().to_string()
}

#[test]
fn says_what_is_wrong_with_arguments() {
    assert_eq!(failure(&[]), "missing -p, -w, or -h");
    assert_eq!(failure(&["mempe"]), "missing -p, -w, or -h");
    assert_eq!(failure(&["mempe", "--help", "x"]), "help does not take more arguments");
    assert_eq!(failure(&["mempe", "-p"]), "this option needs a value");
    assert_eq!(failure(&["mempe", "-x", "1"]), "unknown option: -x");
    assert_eq!(failure(&["mempe", "-p", "12z"]), "invalid PID: 12z");
    assert_eq!(failure(&["mempe", "-p", "0x"]), "invalid PID: 0x");
    assert_eq!(failure(&["mempe", "-p", "0X0"]), "PID must be greater than zero");
    assert_eq!(failure(&["mempe", "-w", ""]), "process name cannot be empty");
    assert_eq!(failure(&["mempe", "-w", "a/b"]), "-w takes a file name, not a path");
    assert_eq!(failure(&["mempe", "-p", "1", "-q"]), "unknown option: -q");
    assert_eq!(failure(&["mempe", "-p", "1", "-e"]), "--entry-point needs an RVA");
    assert_eq!(failure(&["mempe", "-p", "1", "-e", "2", "3"]), "too many arguments");
    assert_eq!(failure(&["mempe", "-p", "1", "-e", "q"]), "invalid entry-point RVA: q");
    assert_eq!(
        failure(&["mempe", "-p", "1", "-e", "0x0"]),
        "entry-point RVA must be greater than zero"
    );
}

#[test]
fn arguments_must_be_text() {
    let bad = |text: &str| Argument { text: text.to_string(), valid: false };
    let mut list = args(&["mempe", "-p"]);
    list.push(bad("1\u{FFFD}"));
    assert_eq!(parse(&list).unwrap_err().message(), "PID must use valid text");
    let mut list = args(&["mempe", "-w"]);
    list.push(bad("1\u{FFFD}"));
    assert_eq!(parse(&list).unwrap_err().message(), "process name must use valid text");
    let mut list = args(&["mempe", "-p", "1", "-e"]);
    list.push(bad("1\u{FFFD}"));
    assert_eq!(parse(&list).unwrap_err().message(), "entry-point RVA must use valid text");
}

#[test]
fn numbers_are_decimal_or_hexadecimal() {
    assert_eq!(parse_u32("4294967295"), Some(u32::MAX));
    assert_eq!(parse_u32("0xFFFFFFFF"), Some(u32::MAX));
    assert_eq!(parse_u32("0X10"), Some(16));
    assert_eq!(parse_u32("0x100000000"), None);
    assert_eq!(parse_u32("10h"), None);
}

#[test]
fn watches_for_names() {
    let request = parse(&args(&["mempe", "-w", "target.exe"])).unwrap().unwrap();
    assert_eq!(request.command, Command::Watch("target.exe".to_string()));
    assert_eq!(request.entry_point, None);
    assert!(HELP.contains("\nmempe.exe -w <program.exe> [--entry-point <RVA>]\n"));
}
