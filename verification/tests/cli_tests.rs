use linegrep::cli::{Cats, CliError, Command, FlagValue};

fn cmd(flag: &str, alias: &str, takes_value: bool, desc: &str, cat: Cats) -> Command {
    Command {
        flag: flag.to_string(),
        aliase: alias.to_string(),
        takes_value,
        description: desc.to_string(),
        cat,
    }
}

fn table() -> Vec<Command> {
    vec![
        cmd("--file", "-f", true, "file to search", Cats::Interpretation),
        cmd("--pattern", "-p", true, "pattern to search for", Cats::Pattern),
        cmd("--ignore-case", "-ic", false, "ignore case distinctions", Cats::Pattern),
    ]
}

fn s(x: &str) -> String {
    x.to_string()
}

fn values_of(v: &FlagValue) -> Vec<String> {
    match v {
        FlagValue::Values(vs) => vs.clone(),
        FlagValue::Bool => panic!("expected a value list"),
    }
}

#[test]
fn parse_mixed_flags_builds_expected_map() {
    let cmds = table();
    let args = vec![s("-f"), s("a.txt"), s("-p"), s("Cat"), s("-ic")];
    let parsed = Command::parse_args(&cmds, &args).unwrap();

    assert_eq!(parsed.len(), 3);
    assert!(parsed.contains_key(&s("--file")));
    assert!(parsed.contains_key(&s("--pattern")));
    assert!(parsed.contains_key(&s("--ignore-case")));
    assert_eq!(values_of(parsed.get(&s("--file")).unwrap()), vec![s("a.txt")]);
    assert_eq!(values_of(parsed.get(&s("--pattern")).unwrap()), vec![s("Cat")]);
    assert!(matches!(parsed.get(&s("--ignore-case")).unwrap(), FlagValue::Bool));
}

#[test]
fn missing_value_at_end_of_input() {
    let cmds = table();
    let args = vec![s("-f")];
    let res = Command::parse_args(&cmds, &args);
    match res {
        Err(CliError::MissingValue(flag)) => assert_eq!(flag, "--file"),
        _ => panic!("expected MissingValue for --file"),
    }
}

#[test]
fn missing_value_when_next_token_is_flag_shaped() {
    let cmds = table();
    let args = vec![s("-f"), s("-ic")];
    let res = Command::parse_args(&cmds, &args);
    match res {
        Err(CliError::MissingValue(flag)) => assert_eq!(flag, "--file"),
        _ => panic!("expected MissingValue for --file"),
    }
}

#[test]
fn unknown_flag_fails_with_the_token() {
    let cmds = table();
    let args = vec![s("--unknown")];
    let res = Command::parse_args(&cmds, &args);
    match res {
        Err(CliError::UnknownFlag(tok)) => assert_eq!(tok, "--unknown"),
        _ => panic!("expected UnknownFlag"),
    }
}

#[test]
fn unknown_flag_stops_before_later_valid_flags() {
    let cmds = table();
    let args = vec![s("-x"), s("-ic")];
    let res = Command::parse_args(&cmds, &args);
    match res {
        Err(CliError::UnknownFlag(tok)) => assert_eq!(tok, "-x"),
        _ => panic!("expected UnknownFlag"),
    }
}

#[test]
fn repeated_value_flag_accumulates_in_order() {
    let cmds = table();
    let args = vec![s("-f"), s("a"), s("-f"), s("b"), s("--file"), s("c")];
    let parsed = Command::parse_args(&cmds, &args).unwrap();
    assert_eq!(parsed.len(), 1);
    assert_eq!(values_of(parsed.get(&s("--file")).unwrap()), vec![s("a"), s("b"), s("c")]);
}

#[test]
fn alias_and_primary_name_share_one_entry() {
    let cmds = table();
    let args = vec![s("--pattern"), s("x"), s("-p"), s("y")];
    let parsed = Command::parse_args(&cmds, &args).unwrap();
    assert_eq!(parsed.len(), 1);
    assert_eq!(values_of(parsed.get(&s("--pattern")).unwrap()), vec![s("x"), s("y")]);
}

#[test]
fn repeated_boolean_flag_is_idempotent() {
    let cmds = table();
    let args = vec![s("-ic"), s("-ic"), s("--ignore-case")];
    let parsed = Command::parse_args(&cmds, &args).unwrap();
    assert_eq!(parsed.len(), 1);
    assert!(matches!(parsed.get(&s("--ignore-case")).unwrap(), FlagValue::Bool));
}

#[test]
fn non_flag_tokens_are_ignored() {
    let cmds = table();
    let args = vec![s("hello"), s("-ic"), s("world")];
    let parsed = Command::parse_args(&cmds, &args).unwrap();
    assert_eq!(parsed.len(), 1);
    assert!(parsed.contains_key(&s("--ignore-case")));
}

#[test]
fn empty_input_yields_empty_map() {
    let cmds = table();
    let args: Vec<String> = vec![];
    let parsed = Command::parse_args(&cmds, &args).unwrap();
    assert_eq!(parsed.len(), 0);
    assert!(!parsed.contains_key(&s("--file")));
    assert!(parsed.get(&s("--file")).is_none());
}

#[test]
fn value_token_is_never_reconsidered_as_flag_candidate() {
    let cmds = table();
    // "-p" here is consumed as the value of "--file", not parsed as a flag.
    let args = vec![s("-f"), s("data"), s("-p"), s("pat")];
    let parsed = Command::parse_args(&cmds, &args).unwrap();
    assert_eq!(values_of(parsed.get(&s("--file")).unwrap()), vec![s("data")]);
    assert_eq!(values_of(parsed.get(&s("--pattern")).unwrap()), vec![s("pat")]);
}

#[test]
fn validator_reports_each_unknown_flag_once_in_order() {
    let cmds = table();
    let args = vec![s("-x"), s("a"), s("-y"), s("-x"), s("-f"), s("q")];
    let reported = Command::validate_args(&cmds, &args);
    assert_eq!(reported, vec![s("-x"), s("-y")]);
}

#[test]
fn validator_never_fails_and_reports_nothing_on_clean_input() {
    let cmds = table();
    let args = vec![s("-f"), s("a.txt"), s("plain"), s("-ic")];
    let reported = Command::validate_args(&cmds, &args);
    assert!(reported.is_empty());
}

#[test]
fn error_messages_name_the_offender() {
    let cmds = table();
    let unknown = Command::parse_args(&cmds, &[s("--nope")]).unwrap_err();
    assert_eq!(unknown.message(), "unknown flag: --nope");
    let missing = Command::parse_args(&cmds, &[s("-p")]).unwrap_err();
    assert_eq!(missing.message(), "missing value for flag --pattern");
}

#[test]
fn category_names() {
    assert_eq!(Cats::Pattern.name(), "Pattern");
    assert_eq!(Cats::Interpretation.name(), "Interpretation");
    assert_eq!(Cats::Miscellaneous.name(), "Miscellaneous");
    assert_eq!(Cats::Output.name(), "Output");
    assert_eq!(Cats::Context.name(), "Context");
}
