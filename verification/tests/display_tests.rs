use pmm::backend::{Backend, Package, PackageInfo};
use pmm::display::{display_pkg, info_lines, join_comma, wrap_desc};

fn pkg(name: &str, version: &str, alias: Option<&str>, desc: &str) -> Package {
    Package {
        name: String::from(name),
        version: String::from(version),
        alias: alias.map(String::from),
        desc: String::from(desc),
        authors: None,
        url: String::new(),
    }
}

fn backend(name: &str) -> Backend {
    Backend { name: String::from(name), colour: (255, 255, 255) }
}

#[test]
fn wrap_greedy_at_width() {
    let lines = wrap_desc("alpha beta gamma", 15);
    assert_eq!(lines, ["alpha beta", "gamma"]);
}

#[test]
fn wrap_empty_text_is_one_empty_line() {
    let lines = wrap_desc("", 40);
    assert_eq!(lines, [""]);
}

#[test]
fn wrap_single_long_word_stays_whole() {
    let lines = wrap_desc("incomprehensibilities", 10);
    assert_eq!(lines, ["incomprehensibilities"]);
}

#[test]
fn wrap_collapses_whitespace() {
    let lines = wrap_desc("a   b\t c", 40);
    assert_eq!(lines, ["a b c"]);
}

#[test]
fn header_with_alias_and_installed() {
    let p = pkg("foo", "1.0", Some("f"), "d");
    let (header, _) = display_pkg(&backend("apt"), &p, true, None);
    assert_eq!(header, "apt/foo as f 1.0 \u{2713} ");
}

#[test]
fn header_plain() {
    let p = pkg("foo", "1.0", None, "d");
    let (header, _) = display_pkg(&backend("apt"), &p, false, None);
    assert_eq!(header, "apt/foo 1.0 ");
}

#[test]
fn unknown_width_gives_one_trimmed_line() {
    let p = pkg("foo", "1.0", None, "  padded description  ");
    let (_, desc) = display_pkg(&backend("apt"), &p, false, None);
    assert_eq!(desc, ["padded description"]);
}

#[test]
fn known_width_wraps_description() {
    let p = pkg("foo", "1.0", None, "alpha beta gamma");
    let (_, desc) = display_pkg(&backend("apt"), &p, false, Some(15));
    assert_eq!(desc, ["alpha beta", "gamma"]);
}

#[test]
fn join_comma_cases() {
    assert_eq!(join_comma(&Vec::new()), "");
    assert_eq!(join_comma(&vec![String::from("a")]), "a");
    assert_eq!(
        join_comma(&vec![String::from("a"), String::from("b"), String::from("c")]),
        "a, b, c"
    );
}

#[test]
fn info_block_lines() {
    let info = PackageInfo {
        pkg: Package {
            name: String::from("foo"),
            version: String::from("1.0"),
            alias: None,
            desc: String::from("a tool"),
            authors: Some(vec![String::from("ann"), String::from("bob")]),
            url: String::from("https://example.invalid/foo"),
        },
        deps: vec![String::from("libx"), String::from("liby")],
        license: String::from("MIT"),
        release_date: String::from("2024-01-01"),
        source: None,
        groups: None,
        downloads: Some(1234),
        homepage: None,
        size: Some(2048),
    };
    let lines = info_lines(&info, "2.05kb");
    assert_eq!(
        lines,
        [
            "name:         foo",
            "version:      1.0",
            "description:  a tool",
            "authors:      ann, bob",
            "url:          https://example.invalid/foo",
            "dependencies: libx, liby",
            "license:      MIT",
            "release-Date: 2024-01-01",
            "source:       Unknown or n/a",
            "groups:       None",
            "downloads:    1234",
            "homepage:     Unknown",
            "size:         2.05kb",
        ]
    );
}

#[test]
fn info_block_absent_size_is_unknown() {
    let info = PackageInfo {
        pkg: pkg("foo", "1.0", None, "d"),
        deps: Vec::new(),
        license: String::new(),
        release_date: String::new(),
        source: None,
        groups: None,
        downloads: None,
        homepage: None,
        size: None,
    };
    let lines = info_lines(&info, "ignored");
    assert_eq!(lines[10], "downloads:    Unknown");
    assert_eq!(lines[12], "size:         Unknown");
}
