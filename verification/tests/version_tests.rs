use pmm::version::PackageVersion;

#[test]
fn parse_exact() {
    let v = PackageVersion::parse("1.2.3");
    assert!(v == PackageVersion::Exact(String::from("1.2.3")));
}

#[test]
fn parse_exact_single_dot() {
    let v = PackageVersion::parse("1.2");
    assert!(v == PackageVersion::Exact(String::from("1.2")));
}

#[test]
fn parse_empty_is_exact_empty() {
    let v = PackageVersion::parse("");
    assert!(v == PackageVersion::Exact(String::new()));
}

#[test]
fn parse_lower_bound() {
    let v = PackageVersion::parse("1.0..");
    assert!(v == PackageVersion::LowerBound(String::from("1.0")));
}

#[test]
fn parse_upper_bound() {
    let v = PackageVersion::parse("..2.0");
    assert!(v == PackageVersion::UpperBound(String::from("2.0")));
}

#[test]
fn parse_range() {
    let v = PackageVersion::parse("1.0..2.0");
    assert!(v == PackageVersion::Range(String::from("1.0"), String::from("2.0")));
}

#[test]
fn parse_any() {
    let v = PackageVersion::parse("..");
    assert!(v == PackageVersion::Any);
}

#[test]
fn parse_splits_at_first_delimiter() {
    let v = PackageVersion::parse("1..2..3");
    assert!(v == PackageVersion::Range(String::from("1"), String::from("2..3")));
}

#[test]
fn parse_triple_dot() {
    let v = PackageVersion::parse("1...2");
    assert!(v == PackageVersion::Range(String::from("1"), String::from(".2")));
}

#[test]
fn render_each_variant() {
    assert_eq!(PackageVersion::Exact(String::from("1.2")).to_text(), "1.2");
    assert_eq!(PackageVersion::LowerBound(String::from("1.2")).to_text(), "1.2..");
    assert_eq!(PackageVersion::UpperBound(String::from("1.2")).to_text(), "..1.2");
    assert_eq!(
        PackageVersion::Range(String::from("1"), String::from("2")).to_text(),
        "1..2"
    );
    assert_eq!(PackageVersion::Any.to_text(), "..");
}

#[test]
fn exact_round_trip() {
    let v = PackageVersion::parse("4.17-beta");
    let again = PackageVersion::parse(v.to_text().as_str());
    assert!(again == v);
}

#[test]
fn normalization_is_idempotent() {
    for s in ["1..2", "..", "a..", "..b", "1..2..3", "1...2", "plain", ""] {
        let once = PackageVersion::parse(s);
        let text = once.to_text();
        let twice = PackageVersion::parse(text.as_str());
        let text2 = twice.to_text();
        assert!(twice == PackageVersion::parse(s));
        assert_eq!(text, text2);
    }
}
