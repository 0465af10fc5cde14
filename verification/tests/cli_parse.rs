use eecalc::calc::ohm::OhmGiven;
use eecalc::calc::power::PowerGiven;
use eecalc::cli::{command_help, parse, Command, CommandName, GLOBAL_HELP, OHM_HELP, VALUE_NOTE};
use eecalc::error::EecalcError;

fn args(tokens: &[&str]) -> Vec<String> {
    tokens.iter().map(|s| (*s).to_string()).collect()
}

#[test]
fn parses_each_command() {
    assert!(matches!(
        parse(&args(&["ohm", "--voltage", "12", "--resistance", "470"])).unwrap(),
        Command::Ohm(OhmGiven::VoltageResistance { .. })
    ));
    assert!(matches!(
        parse(&args(&["power", "-v", "5", "-r", "100"])).unwrap(),
        Command::Power(PowerGiven::VoltageResistance { .. })
    ));
    let Command::Series(rs) = parse(&args(&["series", "100", "220", "330"])).unwrap() else {
        panic!("series");
    };
    assert_eq!(rs.len(), 3);
    assert!(matches!(
        parse(&args(&["parallel", "1k", "1k"])).unwrap(),
        Command::Parallel(_)
    ));
    assert!(matches!(
        parse(&args(&[
            "divider", "--vin", "5", "--r2", "2.2k", "--r1", "10k"
        ]))
        .unwrap(),
        Command::Divider { .. }
    ));
    assert!(matches!(
        parse(&args(&["rc", "-r", "10k", "-c", "1u"])).unwrap(),
        Command::Rc { .. }
    ));
}

#[test]
fn help_forms() {
    assert_eq!(parse(&args(&["help"])).unwrap(), Command::Help);
    assert_eq!(parse(&args(&["--help"])).unwrap(), Command::Help);
    assert_eq!(
        parse(&args(&["ohm", "--help"])).unwrap(),
        Command::CommandHelp(CommandName::Ohm)
    );
    assert_eq!(
        parse(&args(&["ohm", "--voltage", "12", "--help"])).unwrap(),
        Command::CommandHelp(CommandName::Ohm)
    );
    assert!(matches!(
        parse(&args(&["help", "ohm"])).unwrap_err(),
        EecalcError::UnexpectedArgument(_)
    ));
    assert!(matches!(
        parse(&args(&[])).unwrap_err(),
        EecalcError::MissingArgument(_)
    ));
}

#[test]
fn ohm_wrong_count_and_shorts() {
    let err = parse(&args(&["ohm", "--voltage", "12"])).unwrap_err();
    assert_eq!(
        err.to_string(),
        "ohm requires exactly two of --voltage, --current, --resistance"
    );
    assert!(matches!(
        parse(&args(&["ohm"])).unwrap_err(),
        EecalcError::WrongArgumentCount { command: "ohm" }
    ));
    assert!(matches!(
        parse(&args(&[
            "ohm",
            "--voltage",
            "12",
            "--current",
            "1",
            "--resistance",
            "10"
        ]))
        .unwrap_err(),
        EecalcError::WrongArgumentCount { command: "ohm" }
    ));
    assert!(matches!(
        parse(&args(&["ohm", "-i", "20m", "-r", "330"])).unwrap(),
        Command::Ohm(OhmGiven::CurrentResistance { .. })
    ));
}

#[test]
fn unexpected_and_missing() {
    assert!(matches!(
        parse(&args(&["ohm", "--voltage", "12", "--voltage", "5"])).unwrap_err(),
        EecalcError::UnexpectedArgument(_)
    ));
    assert!(matches!(
        parse(&args(&["ohm", "--bogus", "1"])).unwrap_err(),
        EecalcError::UnexpectedArgument(_)
    ));
    assert!(matches!(
        parse(&args(&["series", "--foo", "1", "2"])).unwrap_err(),
        EecalcError::UnexpectedArgument(_)
    ));
    assert!(matches!(
        parse(&args(&["ohm", "--voltage"])).unwrap_err(),
        EecalcError::MissingArgument(_)
    ));
    assert!(matches!(
        parse(&args(&["nope"])).unwrap_err(),
        EecalcError::UnknownCommand(_)
    ));
    assert!(matches!(
        parse(&args(&["series", "100"])).unwrap_err(),
        EecalcError::WrongArgumentCount { command: "series" }
    ));
    assert!(matches!(
        parse(&args(&["divider", "--vin", "5"])).unwrap_err(),
        EecalcError::MissingArgument(_)
    ));
    assert!(matches!(
        parse(&args(&["rc", "--resistance", "10k"])).unwrap_err(),
        EecalcError::MissingArgument(_)
    ));
}

#[test]
fn command_help_text() {
    assert_eq!(
        command_help(CommandName::Ohm),
        format!("{OHM_HELP}\n\n{VALUE_NOTE}")
    );
    assert!(command_help(CommandName::Power).contains("Prints power P."));
    assert!(GLOBAL_HELP.contains("p n u m k M"));
}
