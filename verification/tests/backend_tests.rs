use pmm::backend::{default_colour, Backend, Backends};

fn backend(name: &str) -> Backend {
    Backend { name: String::from(name), colour: (0, 0, 0) }
}

#[test]
fn empty_registry_is_refused() {
    assert!(Backends::new(Vec::new()).is_none());
}

#[test]
fn lookup_by_name() {
    let bs = Backends::new(vec![backend("apt"), backend("brew")]).unwrap();
    assert_eq!(bs.len(), 2);
    assert_eq!(bs.get("apt").unwrap().name, "apt");
    assert_eq!(bs.get("brew").unwrap().name, "brew");
    assert!(bs.get("pip").is_none());
}

#[test]
fn lookup_finds_first_match() {
    let mut a = backend("apt");
    a.colour = (1, 2, 3);
    let bs = Backends::new(vec![a, backend("apt")]).unwrap();
    assert_eq!(bs.get("apt").unwrap().colour, (1, 2, 3));
}

#[test]
fn list_keeps_load_order() {
    let bs = Backends::new(vec![backend("z"), backend("a")]).unwrap();
    let names: Vec<&str> = bs.list().iter().map(|b| b.name.as_str()).collect();
    assert_eq!(names, ["z", "a"]);
}

#[test]
fn missing_accent_default() {
    assert_eq!(default_colour(), (255, 255, 255));
}
