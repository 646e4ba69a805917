use ledger::digits::parse_u64;
use ledger::digits::u64_to_string;
use ledger::interface::Command;
use ledger::interface::CommandError;

#[test]
fn parses_deposit() {
    let r = Command::parse_args("deposit alice 5".to_string());
    assert_eq!(r.unwrap(), Command::Deposit("alice".to_string(), 5));
}

#[test]
fn parses_withdraw() {
    let r = Command::parse_args("withdraw bob 250".to_string());
    assert_eq!(r.unwrap(), Command::Withdraw("bob".to_string(), 250));
}

#[test]
fn parses_send() {
    let r = Command::parse_args("send alice bob 3".to_string());
    assert_eq!(
        r.unwrap(),
        Command::Send("alice".to_string(), "bob".to_string(), 3)
    );
}

#[test]
fn parses_bare_commands() {
    assert_eq!(Command::parse_args("print".to_string()).unwrap(), Command::Print);
    assert_eq!(Command::parse_args("quit".to_string()).unwrap(), Command::Quit);
    assert_eq!(Command::parse_args("help".to_string()).unwrap(), Command::Help);
}

#[test]
fn unknown_command_is_reported_verbatim() {
    match Command::parse_args("foo bar".to_string()) {
        Err(CommandError::UnknownArgument(word)) => assert_eq!(word, "foo"),
        other => panic!("expected UnknownArgument, got {:?}", other),
    }
}

#[test]
fn empty_line_is_an_unknown_command() {
    match Command::parse_args(String::new()) {
        Err(CommandError::UnknownArgument(word)) => assert_eq!(word, ""),
        other => panic!("expected UnknownArgument, got {:?}", other),
    }
}

#[test]
fn missing_arguments_are_rejected() {
    assert!(matches!(
        Command::parse_args("deposit alice".to_string()),
        Err(CommandError::WrongNumberOfArguments)
    ));
    assert!(matches!(
        Command::parse_args("withdraw".to_string()),
        Err(CommandError::WrongNumberOfArguments)
    ));
    assert!(matches!(
        Command::parse_args("send alice bob".to_string()),
        Err(CommandError::WrongNumberOfArguments)
    ));
}

#[test]
fn non_alphabetic_name_is_rejected() {
    match Command::parse_args("deposit al1ce 5".to_string()) {
        Err(CommandError::WrongArgumentType(message)) => {
            assert_eq!(message, "expected a name as an account");
        },
        other => panic!("expected WrongArgumentType, got {:?}", other),
    }
}

#[test]
fn non_numeric_amount_is_rejected() {
    match Command::parse_args("deposit alice abc".to_string()) {
        Err(CommandError::WrongArgumentType(message)) => {
            assert_eq!(message, "expected non-negative integer as amount");
        },
        other => panic!("expected WrongArgumentType, got {:?}", other),
    }
}

#[test]
fn negative_amount_is_rejected() {
    assert!(matches!(
        Command::parse_args("withdraw alice -5".to_string()),
        Err(CommandError::WrongArgumentType(_))
    ));
}

#[test]
fn amount_above_u64_max_is_rejected() {
    assert!(matches!(
        Command::parse_args("deposit alice 18446744073709551616".to_string()),
        Err(CommandError::WrongArgumentType(_))
    ));
}

#[test]
fn amount_with_plus_sign_is_accepted() {
    let r = Command::parse_args("deposit alice +5".to_string());
    assert_eq!(r.unwrap(), Command::Deposit("alice".to_string(), 5));
}

#[test]
fn extra_tokens_are_ignored() {
    let r = Command::parse_args("deposit alice 5 junk".to_string());
    assert_eq!(r.unwrap(), Command::Deposit("alice".to_string(), 5));
}

#[test]
fn empty_name_token_is_accepted() {
    // Splitting "deposit  5" on single spaces yields an empty name token,
    // which the alphabetic check vacuously accepts.
    let r = Command::parse_args("deposit  5".to_string());
    assert_eq!(r.unwrap(), Command::Deposit(String::new(), 5));
}

#[test]
fn send_checks_both_names() {
    match Command::parse_args("send alice b0b 3".to_string()) {
        Err(CommandError::WrongArgumentType(message)) => {
            assert_eq!(message, "expected a name as an account");
        },
        other => panic!("expected WrongArgumentType, got {:?}", other),
    }
}

#[test]
fn renders_decimal_values() {
    assert_eq!(u64_to_string(0), "0");
    assert_eq!(u64_to_string(7), "7");
    assert_eq!(u64_to_string(1234567890), "1234567890");
    assert_eq!(u64_to_string(u64::MAX), "18446744073709551615");
}

#[test]
fn reads_decimal_values() {
    assert_eq!(parse_u64("0"), Some(0));
    assert_eq!(parse_u64("007"), Some(7));
    assert_eq!(parse_u64("18446744073709551615"), Some(u64::MAX));
    assert_eq!(parse_u64("18446744073709551616"), None);
    assert_eq!(parse_u64(""), None);
    assert_eq!(parse_u64("+"), None);
    assert_eq!(parse_u64("12a"), None);
    assert_eq!(parse_u64("-1"), None);
}

#[test]
fn decimal_round_trip() {
    for n in [0u64, 1, 9, 10, 99, 100, 4096, u64::MAX - 1, u64::MAX] {
        assert_eq!(parse_u64(&u64_to_string(n)), Some(n));
    }
}
