use pmm::backend::{Backend, Package};
use pmm::world::{World, WorldParseError};

fn pkg(name: &str, version: &str) -> Package {
    Package {
        name: String::from(name),
        version: String::from(version),
        alias: None,
        desc: String::new(),
        authors: None,
        url: String::new(),
    }
}

fn backend(name: &str) -> Backend {
    Backend { name: String::from(name), colour: (255, 255, 255) }
}

#[test]
fn load_single_entry() {
    let w = World::new("apt-like foo 1.2.0\n").unwrap();
    assert!(w.has_package(&pkg("foo", "1.2.0"), &backend("apt-like")));
    assert!(!w.has_package(&pkg("foo", "1.2.0"), &backend("brew-like")));
    assert!(!w.has_package(&pkg("bar", "1.2.0"), &backend("apt-like")));
}

#[test]
fn insert_and_reload() {
    let mut w = World::new("").unwrap();
    w.add_package(pkg("foo", "1.2.0"), "apt-like");
    let text = w.serialize();
    let again = World::new(text.as_str()).unwrap();
    assert!(again.has_package(&pkg("foo", "1.2.0"), &backend("apt-like")));
    assert!(!again.has_package(&pkg("foo", "1.2.0"), &backend("brew-like")));
}

#[test]
fn duplicate_name_is_fatal_citing_second_line() {
    let r = World::new("apt foo 1.0\nbrew foo 2.0\n");
    match r {
        Err(WorldParseError::DuplicateEntry { line, name }) => {
            assert_eq!(line, 1);
            assert_eq!(name, "foo");
        }
        _ => panic!("expected a duplicate-entry error"),
    }
}

#[test]
fn duplicate_error_message() {
    let e = World::new("apt foo 1.0\nbrew foo 2.0\n").unwrap_err();
    assert_eq!(e.message(), "line 1: Duplicate entry for foo");
}

#[test]
fn missing_fields_are_fatal() {
    match World::new("apt foo\n") {
        Err(WorldParseError::InvalidEntry { line }) => assert_eq!(line, 0),
        _ => panic!("expected an invalid-entry error"),
    }
    match World::new("apt\n") {
        Err(WorldParseError::InvalidEntry { line }) => assert_eq!(line, 0),
        _ => panic!("expected an invalid-entry error"),
    }
}

#[test]
fn invalid_entry_message() {
    let e = World::new("good one 1.0\napt foo\n").unwrap_err();
    assert_eq!(e.message(), "line 1: Invalid entry format");
}

#[test]
fn comments_and_blank_lines_are_skipped() {
    let w = World::new("# a comment\n\n   \napt foo 1.0\n").unwrap();
    assert!(w.has_package(&pkg("foo", "1.0"), &backend("apt")));
}

#[test]
fn comment_lines_still_count_for_numbering() {
    let e = World::new("# heading\napt foo 1.0\n\nbrew foo 2.0\n").unwrap_err();
    match e {
        WorldParseError::DuplicateEntry { line, .. } => assert_eq!(line, 3),
        _ => panic!("expected a duplicate-entry error"),
    }
}

#[test]
fn alias_round_trip() {
    let w = World::new("apt foo 1.0 myfoo\n").unwrap();
    assert_eq!(w.serialize(), "apt foo 1.0 myfoo\n");
}

#[test]
fn extra_tokens_are_ignored() {
    let w = World::new("apt foo 1.0 myfoo extra junk\n").unwrap();
    assert_eq!(w.serialize(), "apt foo 1.0 myfoo\n");
}

#[test]
fn serialization_is_sorted_by_name() {
    let mut w = World::new("").unwrap();
    w.add_package(pkg("zeta", "2.0"), "b1");
    w.add_package(pkg("alpha", "1.0"), "b2");
    w.add_package(pkg("mid", "3.0"), "b3");
    assert_eq!(w.serialize(), "b2 alpha 1.0\nb3 mid 3.0\nb1 zeta 2.0\n");
}

#[test]
fn range_constraints_round_trip_normalized() {
    let w = World::new("apt foo 1.0..2.0\nbrew bar ..\n").unwrap();
    assert_eq!(w.serialize(), "brew bar ..\napt foo 1.0..2.0\n");
}

#[test]
fn add_overwrites_existing_entry() {
    let mut w = World::new("apt foo 1.0\n").unwrap();
    assert!(w.contains_name("foo"));
    w.add_package(pkg("foo", "2.0"), "brew");
    assert!(w.has_package(&pkg("foo", "2.0"), &backend("brew")));
    assert!(!w.has_package(&pkg("foo", "2.0"), &backend("apt")));
    assert_eq!(w.serialize(), "brew foo 2.0\n");
}

#[test]
fn contains_name_reports_presence() {
    let w = World::new("apt foo 1.0\n").unwrap();
    assert!(w.contains_name("foo"));
    assert!(!w.contains_name("bar"));
}

#[test]
fn empty_store_serializes_to_nothing() {
    let w = World::empty();
    assert_eq!(w.serialize(), "");
}

#[test]
fn mixed_constraints_survive_reload() {
    let mut w = World::new("apt low 1.0..\nbrew high ..2.0\n").unwrap();
    w.add_package(pkg("mid", "1.0..2.0"), "pip");
    let text = w.serialize();
    assert_eq!(text, "brew high ..2.0\napt low 1.0..\npip mid 1.0..2.0\n");
    let again = World::new(text.as_str()).unwrap();
    assert_eq!(again.serialize(), text);
}

#[test]
fn file_without_trailing_newline_loads() {
    let w = World::new("apt foo 1.0").unwrap();
    assert!(w.contains_name("foo"));
}
