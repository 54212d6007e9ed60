use ticker_args::choice::{Choice, NOT_A_SWITCH};
use ticker_args::glossary::{ChoiceGlossary, Glossary};
use ticker_args::parser::{parse_args, Action, Outcome, Request};

fn args(list: &[&str]) -> Vec<String> {
    list.iter().map(|s| s.to_string()).collect()
}

fn run(list: &[&str]) -> (Result<Outcome, String>, ChoiceGlossary) {
    let mut choice = ChoiceGlossary::new();
    let outcome = parse_args(&args(list), &mut choice);
    (outcome, choice)
}

#[test]
fn history_command_is_recognized() {
    let (outcome, _) = run(&["prog", "history"]);
    assert_eq!(outcome, Ok(Outcome::Resolved(Request::History)));
    let (outcome, _) = run(&["prog", "hist"]);
    assert_eq!(outcome, Ok(Outcome::Resolved(Request::History)));
}

#[test]
fn history_command_ends_the_pass() {
    let (outcome, choice) = run(&["prog", "history", "-v", "appl"]);
    assert_eq!(outcome, Ok(Outcome::Resolved(Request::History)));
    assert_eq!(choice.verbose.get_state(), Ok(false));
}

#[test]
fn program_name_alone_asks_for_usage() {
    let (outcome, _) = run(&["prog"]);
    assert_eq!(outcome, Ok(Outcome::Resolved(Request::Usage)));
}

#[test]
fn switch_then_ticker_resolves() {
    let (outcome, choice) = run(&["prog", "-v", "appl"]);
    assert_eq!(
        outcome,
        Ok(Outcome::Resolved(Request::Ticker(String::from("appl"))))
    );
    assert_eq!(choice.verbose.get_state(), Ok(true));
    assert_eq!(choice.quiet.get_state(), Ok(false));
}

#[test]
fn long_prefix_option_resolves_uniquely() {
    let (outcome, choice) = run(&["prog", "--verb", "--off", "appl"]);
    assert_eq!(
        outcome,
        Ok(Outcome::Resolved(Request::Ticker(String::from("appl"))))
    );
    assert_eq!(choice.verbose.get_state(), Ok(true));
    assert_eq!(choice.offline.get_state(), Ok(true));
    assert_eq!(choice.nocache.get_state(), Ok(false));
}

#[test]
fn repeated_switch_stays_enabled() {
    let (outcome, choice) = run(&["prog", "-v", "--verbose", "-v", "appl"]);
    assert_eq!(
        outcome,
        Ok(Outcome::Resolved(Request::Ticker(String::from("appl"))))
    );
    assert_eq!(choice.verbose.get_state(), Ok(true));
    let (_, once) = run(&["prog", "-n", "appl"]);
    let (_, twice) = run(&["prog", "-n", "-n", "appl"]);
    assert_eq!(once.nocache.get_state(), Ok(true));
    assert_eq!(twice.nocache.get_state(), Ok(true));
}

#[test]
fn options_alone_resolve() {
    let (outcome, choice) = run(&["prog", "-q", "-n"]);
    assert_eq!(outcome, Ok(Outcome::Resolved(Request::OptionsOnly)));
    assert_eq!(choice.quiet.get_state(), Ok(true));
    assert_eq!(choice.nocache.get_state(), Ok(true));
}

#[test]
fn ambiguous_option_reports_candidates() {
    let (outcome, choice) = run(&["prog", "-q", "--v", "appl"]);
    assert_eq!(
        outcome,
        Ok(Outcome::Ambiguous {
            token: String::from("--v"),
            candidates: vec![String::from("verbose"), String::from("version")],
        })
    );
    assert_eq!(choice.quiet.get_state(), Ok(true));
    assert_eq!(choice.verbose.get_state(), Ok(false));
}

#[test]
fn help_short_form_triggers_help() {
    let (outcome, choice) = run(&["prog", "-h", "-v"]);
    assert_eq!(outcome, Ok(Outcome::ActionTriggered(Action::Help)));
    assert_eq!(choice.verbose.get_state(), Ok(false));
    let (outcome, _) = run(&["prog", "--hel"]);
    assert_eq!(outcome, Ok(Outcome::ActionTriggered(Action::Help)));
}

#[test]
fn version_long_form_triggers_version() {
    let (outcome, _) = run(&["prog", "--vers"]);
    assert_eq!(outcome, Ok(Outcome::ActionTriggered(Action::Version)));
    let (outcome, _) = run(&["prog", "--version", "appl"]);
    assert_eq!(outcome, Ok(Outcome::ActionTriggered(Action::Version)));
}

#[test]
fn two_character_short_form_is_invalid_option() {
    let (outcome, _) = run(&["prog", "-he"]);
    assert_eq!(outcome, Ok(Outcome::InvalidOption(String::from("-he"))));
}

#[test]
fn unknown_option_is_invalid() {
    let (outcome, _) = run(&["prog", "--xyz", "appl"]);
    assert_eq!(outcome, Ok(Outcome::InvalidOption(String::from("--xyz"))));
    let (outcome, _) = run(&["prog", "-x"]);
    assert_eq!(outcome, Ok(Outcome::InvalidOption(String::from("-x"))));
    let (outcome, _) = run(&["prog", "-V"]);
    assert_eq!(outcome, Ok(Outcome::InvalidOption(String::from("-V"))));
}

#[test]
fn unknown_command_is_invalid() {
    let (outcome, _) = run(&["prog", "foo", "appl"]);
    assert_eq!(outcome, Ok(Outcome::InvalidCommand(String::from("foo"))));
}

#[test]
fn malformed_dash_tokens_go_to_command_handling() {
    let (outcome, _) = run(&["prog", "--", "appl"]);
    assert_eq!(outcome, Ok(Outcome::InvalidCommand(String::from("--"))));
    let (outcome, _) = run(&["prog", "-", "appl"]);
    assert_eq!(outcome, Ok(Outcome::InvalidCommand(String::from("-"))));
    let (outcome, _) = run(&["prog", "---help", "appl"]);
    assert_eq!(outcome, Ok(Outcome::InvalidCommand(String::from("---help"))));
    let (outcome, _) = run(&["prog", "---x"]);
    assert_eq!(
        outcome,
        Ok(Outcome::Resolved(Request::Ticker(String::from("---x"))))
    );
}

#[test]
fn enabling_an_entry_that_is_no_switch_fails() {
    let mut choice = ChoiceGlossary::new();
    choice.verbose = Choice::Name {
        short: 'v',
        long: String::from("verbose"),
    };
    let outcome = parse_args(&args(&["prog", "-v", "appl"]), &mut choice);
    assert_eq!(outcome, Err(String::from(NOT_A_SWITCH)));
}

#[test]
fn empty_argument_list_resolves_with_nothing_asked() {
    let mut choice = ChoiceGlossary::new();
    let outcome = parse_args(&Vec::new(), &mut choice);
    assert_eq!(outcome, Ok(Outcome::Resolved(Request::OptionsOnly)));
}
