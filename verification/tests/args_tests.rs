use pmm::args::Args;

fn argv(parts: &[&str]) -> Vec<String> {
    parts.iter().map(|p| String::from(*p)).collect()
}

#[test]
fn flags_and_verbs_separate() {
    let (args, verbs) = Args::parse(argv(&["-h", "search", "foo"]));
    assert!(args.get("h"));
    assert!(!args.get("help"));
    assert_eq!(verbs, ["search", "foo"]);
}

#[test]
fn double_dash_flag() {
    let (args, verbs) = Args::parse(argv(&["--dry", "add", "foo"]));
    assert!(args.get("dry"));
    assert_eq!(verbs, ["add", "foo"]);
}

#[test]
fn flag_with_value() {
    let (args, _) = Args::parse(argv(&["-key=val"]));
    assert!(!args.get("key"));
    assert_eq!(args.get_with_opt("key"), Some(Some(String::from("val"))));
}

#[test]
fn absent_flag() {
    let (args, _) = Args::parse(argv(&["-h"]));
    assert_eq!(args.get_with_opt("missing"), None);
    assert!(!args.get("missing"));
}

#[test]
fn bare_flag_has_no_value() {
    let (args, _) = Args::parse(argv(&["--verbose"]));
    assert_eq!(args.get_with_opt("verbose"), Some(None));
}

#[test]
fn repeated_flag_keeps_last_value() {
    let (args, _) = Args::parse(argv(&["-k=1", "-k=2"]));
    assert_eq!(args.get_with_opt("k"), Some(Some(String::from("2"))));
}

#[test]
fn lone_dash_is_empty_key() {
    let (args, verbs) = Args::parse(argv(&["-"]));
    assert!(args.get(""));
    assert!(verbs.is_empty());
}

#[test]
fn empty_value_after_equals() {
    let (args, _) = Args::parse(argv(&["-k="]));
    assert_eq!(args.get_with_opt("k"), Some(Some(String::new())));
}

#[test]
fn value_keeps_later_equals_signs() {
    let (args, _) = Args::parse(argv(&["-k=a=b"]));
    assert_eq!(args.get_with_opt("k"), Some(Some(String::from("a=b"))));
}

#[test]
fn no_arguments() {
    let (args, verbs) = Args::parse(Vec::new());
    assert!(!args.get("h"));
    assert!(verbs.is_empty());
}
