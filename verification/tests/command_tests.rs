use pmm::backend::Package;
use pmm::command::{parse_action, pick_candidate, select_candidates, Action, CmdError};

fn argv(parts: &[&str]) -> Vec<String> {
    parts.iter().map(|p| String::from(*p)).collect()
}

fn pkg(name: &str) -> Package {
    Package {
        name: String::from(name),
        version: String::from("1.0"),
        alias: None,
        desc: String::new(),
        authors: None,
        url: String::new(),
    }
}

#[test]
fn search_takes_remaining_verbs() {
    match parse_action(argv(&["search", "foo", "bar"])) {
        Ok(Action::Search(args)) => assert_eq!(args, ["foo", "bar"]),
        _ => panic!("expected a search action"),
    }
}

#[test]
fn info_takes_exactly_one_argument() {
    match parse_action(argv(&["info", "foo"])) {
        Ok(Action::Info(arg)) => assert_eq!(arg, "foo"),
        _ => panic!("expected an info action"),
    }
    assert!(matches!(
        parse_action(argv(&["info"])),
        Err(CmdError::InfoMissingArgument)
    ));
    assert!(matches!(
        parse_action(argv(&["info", "a", "b"])),
        Err(CmdError::InfoTooManyArguments)
    ));
}

#[test]
fn add_needs_an_argument() {
    match parse_action(argv(&["add", "foo"])) {
        Ok(Action::Add(arg)) => assert_eq!(arg, "foo"),
        _ => panic!("expected an add action"),
    }
    assert!(matches!(
        parse_action(argv(&["add"])),
        Err(CmdError::AddMissingArgument)
    ));
}

#[test]
fn test_verb() {
    assert!(matches!(parse_action(argv(&["test"])), Ok(Action::Test)));
}

#[test]
fn unknown_verb_is_fatal() {
    match parse_action(argv(&["frobnicate"])) {
        Err(CmdError::UnknownAction(a)) => assert_eq!(a, "frobnicate"),
        _ => panic!("expected an unknown-action error"),
    }
}

#[test]
fn no_verbs_is_fatal() {
    assert!(matches!(parse_action(Vec::new()), Err(CmdError::NoVerbs)));
}

#[test]
fn error_messages() {
    assert_eq!(
        CmdError::InfoTooManyArguments.message(),
        "action `info` expected only one argument"
    );
    assert_eq!(
        CmdError::InfoMissingArgument.message(),
        "action `info` expected an argument"
    );
    assert_eq!(
        CmdError::AddMissingArgument.message(),
        "action `add` expected at least one argument"
    );
    assert_eq!(
        CmdError::UnknownAction(String::from("zap")).message(),
        "Unknown action `zap`"
    );
    assert_eq!(CmdError::NoVerbs.message(), "No verbs provided");
}

#[test]
fn candidates_take_first_exact_match_per_backend_reversed() {
    let results = vec![
        (String::from("high"), vec![pkg("other"), pkg("foo"), pkg("foo")]),
        (String::from("none"), vec![pkg("bar")]),
        (String::from("low"), vec![pkg("foo")]),
    ];
    let mut cands = select_candidates(results, &String::from("foo"));
    assert_eq!(cands.len(), 2);
    assert_eq!(cands[0].0, "low");
    assert_eq!(cands[1].0, "high");
    let top = cands.pop().unwrap();
    assert_eq!(top.0, "high");
    assert_eq!(top.1.name, "foo");
}

#[test]
fn no_candidates_when_nothing_matches() {
    let results = vec![(String::from("a"), vec![pkg("bar")])];
    let cands = select_candidates(results, &String::from("foo"));
    assert!(cands.is_empty());
}

#[test]
fn menu_choice_is_validated() {
    assert_eq!(pick_candidate(0, 3), None);
    assert_eq!(pick_candidate(1, 3), Some(0));
    assert_eq!(pick_candidate(3, 3), Some(2));
    assert_eq!(pick_candidate(4, 3), None);
    assert_eq!(pick_candidate(1, 0), None);
}
