use activity::args::{parse_arg, split_color_options, ArgError, ColorChoice, ParsedArg};

#[test]
fn parse_valid_date_dashes() {
    let result = parse_arg("2026-04-25");
    assert!(result.is_ok());
    match result.unwrap() {
        ParsedArg::Day { date } => assert_eq!(date, "2026-04-25"),
        _ => panic!("expected Day"),
    }
}

#[test]
fn parse_valid_date_compact() {
    let result = parse_arg("20260425");
    assert!(result.is_ok());
    match result.unwrap() {
        ParsedArg::Day { date } => assert_eq!(date, "2026-04-25"),
        _ => panic!("expected Day"),
    }
}

#[test]
fn parse_valid_month_dashes() {
    let result = parse_arg("2026-04");
    assert!(result.is_ok());
    match result.unwrap() {
        ParsedArg::Month { yyyymm } => assert_eq!(yyyymm, "202604"),
        _ => panic!("expected Month"),
    }
}

#[test]
fn parse_valid_month_compact() {
    let result = parse_arg("202604");
    assert!(result.is_ok());
    match result.unwrap() {
        ParsedArg::Month { yyyymm } => assert_eq!(yyyymm, "202604"),
        _ => panic!("expected Month"),
    }
}

#[test]
fn parse_invalid_returns_error() {
    assert!(parse_arg("foobar").is_err());
    assert!(parse_arg("2026-13").is_err());
    assert!(parse_arg("2026-00").is_err());
    assert!(parse_arg("2026-04-00").is_err());
    assert!(parse_arg("2026-04-32").is_err());
    assert!(parse_arg("19990101").is_err());
}

#[test]
fn parse_error_message() {
    match parse_arg("x") {
        Err(e) => {
            assert_eq!(e, ArgError::Unrecognized { arg: "x".to_string() });
            assert!(e.message().starts_with("unrecognized argument 'x'."));
        },
        Ok(_) => panic!("expected an error"),
    }
}

#[test]
fn color_options_are_separated() {
    let args = vec!["--color=never".to_string(), "2026-04".to_string(), "--color=always".to_string()];
    let (choice, rest) = split_color_options(&args);
    assert_eq!(choice, ColorChoice::Always);
    assert_eq!(rest, vec!["2026-04".to_string()]);
    assert!(choice.resolve(true, false));
}

#[test]
fn color_choice_resolves() {
    assert!(!ColorChoice::Never.resolve(false, true));
    assert!(ColorChoice::Always.resolve(true, false));
    assert!(ColorChoice::Auto.resolve(false, true));
    assert!(!ColorChoice::Auto.resolve(true, true));
    assert!(!ColorChoice::Auto.resolve(false, false));
}
