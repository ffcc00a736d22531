use pmm::backend::Package;
use pmm::command::flatten_results;
use pmm::dispatch::{collect_results, sort_by_priority};

fn pkg(name: &str) -> Package {
    Package {
        name: String::from(name),
        version: String::from("1.0"),
        alias: None,
        desc: String::new(),
        authors: None,
        url: String::new(),
    }
}

fn prio(names: &[&str]) -> Vec<String> {
    names.iter().map(|n| String::from(*n)).collect()
}

#[test]
fn failed_backend_is_isolated() {
    let replies: Vec<(String, Result<i32, String>)> = vec![
        (String::from("x"), Err(String::from("boom"))),
        (String::from("y"), Ok(1)),
        (String::from("z"), Ok(2)),
    ];
    let (kept, warnings) = collect_results(replies);
    assert_eq!(kept.len(), 2);
    assert_eq!(kept[0].0, "y");
    assert_eq!(kept[0].1, 1);
    assert_eq!(kept[1].0, "z");
    assert_eq!(kept[1].1, 2);
    assert_eq!(warnings.len(), 1);
    assert_eq!(warnings[0].0, "x");
    assert_eq!(warnings[0].1, "boom");
}

#[test]
fn all_successes_pass_through() {
    let replies: Vec<(String, Result<i32, String>)> =
        vec![(String::from("a"), Ok(7)), (String::from("b"), Ok(8))];
    let (kept, warnings) = collect_results(replies);
    assert_eq!(kept.len(), 2);
    assert!(warnings.is_empty());
}

#[test]
fn priority_merge_listed_first_unlisted_last() {
    let mut v: Vec<(String, i32)> = vec![
        (String::from("a"), 1),
        (String::from("b"), 2),
        (String::from("c"), 3),
    ];
    sort_by_priority(&prio(&["b", "a"]), &mut v);
    let names: Vec<&str> = v.iter().map(|p| p.0.as_str()).collect();
    assert_eq!(names, ["b", "a", "c"]);
}

#[test]
fn priority_merge_is_stable_among_equals() {
    let mut v: Vec<(String, i32)> = vec![
        (String::from("c"), 1),
        (String::from("a"), 2),
        (String::from("c"), 3),
        (String::from("a"), 4),
    ];
    sort_by_priority(&prio(&["a"]), &mut v);
    let got: Vec<(&str, i32)> = v.iter().map(|p| (p.0.as_str(), p.1)).collect();
    assert_eq!(got, [("a", 2), ("a", 4), ("c", 1), ("c", 3)]);
}

#[test]
fn empty_priority_keeps_arrival_order() {
    let mut v: Vec<(String, i32)> =
        vec![(String::from("b"), 1), (String::from("a"), 2)];
    sort_by_priority(&prio(&[]), &mut v);
    let names: Vec<&str> = v.iter().map(|p| p.0.as_str()).collect();
    assert_eq!(names, ["b", "a"]);
}

#[test]
fn repeated_priority_name_ranks_by_first_position() {
    let mut v: Vec<(String, i32)> = vec![
        (String::from("b"), 1),
        (String::from("a"), 2),
    ];
    sort_by_priority(&prio(&["a", "a", "b"]), &mut v);
    let names: Vec<&str> = v.iter().map(|p| p.0.as_str()).collect();
    assert_eq!(names, ["a", "b"]);
}

#[test]
fn merged_list_flattens_in_priority_order() {
    let replies: Vec<(String, Result<Vec<Package>, String>)> = vec![
        (String::from("apt-like"), Ok(vec![pkg("foo"), pkg("bar")])),
        (String::from("brew-like"), Ok(vec![pkg("baz")])),
    ];
    let (mut kept, warnings) = collect_results(replies);
    assert!(warnings.is_empty());
    sort_by_priority(&prio(&["brew-like", "apt-like"]), &mut kept);
    let flat = flatten_results(kept);
    let got: Vec<(&str, &str)> =
        flat.iter().map(|p| (p.0.as_str(), p.1.name.as_str())).collect();
    assert_eq!(
        got,
        [("brew-like", "baz"), ("apt-like", "foo"), ("apt-like", "bar")]
    );
}
