use egg_viz::registry::KnownFiles;
use egg_viz::RequestError;

fn entry(path: &str, mtime: u64) -> (String, u64) {
    (path.to_string(), mtime)
}

#[test]
fn ids_follow_modification_time_order() {
    // b.csv is newer than a.csv, whatever order the walk yields
    let mut reg = KnownFiles::new("root", Vec::new());
    reg.generate(&vec![entry("b.csv", 200), entry("a.csv", 100)]);
    assert_eq!(reg.get_path(0).unwrap(), "a.csv");
    assert_eq!(reg.get_path(1).unwrap(), "b.csv");
}

#[test]
fn ids_never_change_or_get_reused() {
    let mut reg = KnownFiles::new("root", Vec::new());
    reg.generate(&vec![entry("a.csv", 100), entry("b.csv", 200)]);
    assert_eq!(reg.get_path(0).unwrap(), "a.csv");
    assert_eq!(reg.get_path(1).unwrap(), "b.csv");

    // a.csv disappears; c.csv appears with an older time than anything
    reg.generate(&vec![entry("b.csv", 200), entry("c.csv", 50)]);
    assert_eq!(reg.get_path(0), Err(RequestError::NotFound));
    assert_eq!(reg.get_path(1).unwrap(), "b.csv");
    assert_eq!(reg.get_path(2).unwrap(), "c.csv");

    // a.csv comes back: it keeps id 0, no id is reused
    reg.generate(&vec![entry("a.csv", 300), entry("b.csv", 200), entry("c.csv", 50)]);
    assert_eq!(reg.get_path(0).unwrap(), "a.csv");
    assert_eq!(reg.get_path(1).unwrap(), "b.csv");
    assert_eq!(reg.get_path(2).unwrap(), "c.csv");
    assert_eq!(reg.get_path(3), Err(RequestError::NotFound));
}

#[test]
fn resolve_fails_for_unknown_and_absent_ids() {
    let mut reg = KnownFiles::new("root", Vec::new());
    assert_eq!(reg.get_path(0), Err(RequestError::NotFound));
    reg.generate(&vec![entry("a.csv", 1)]);
    assert_eq!(reg.get_path(0).unwrap(), "a.csv");
    assert_eq!(reg.get_path(7), Err(RequestError::NotFound));
    reg.generate(&Vec::new());
    assert_eq!(reg.get_path(0), Err(RequestError::NotFound));
}

#[test]
fn excluded_suffix_never_gets_an_id() {
    let mut reg = KnownFiles::new("root", vec!["skip.csv".to_string()]);
    reg.generate(&vec![
        entry("keep.csv", 1),
        entry("skip.csv", 2),
        entry("sub/skip.csv", 3),
        entry("notskip.csv", 4),
    ]);
    // "notskip.csv" does not match: the suffix must sit at a component
    // boundary; "skip.csv" and "sub/skip.csv" never get ids
    let listing = reg.list();
    let paths: Vec<&str> = listing.iter().map(|(_, p)| p.as_str()).collect();
    assert_eq!(paths, vec!["keep.csv", "notskip.csv"]);

    // even after the exclusion ages across rescans nothing appears
    reg.generate(&vec![entry("skip.csv", 9)]);
    assert_eq!(reg.get_path(2), Err(RequestError::NotFound));
}

#[test]
fn extension_filter_limits_discovery() {
    let mut reg = KnownFiles::new("root", Vec::new());
    reg.generate(&vec![
        entry("a.csv", 1),
        entry("b.txt", 2),
        entry("csv", 3),
        entry(".csv", 4),
        entry("dir.csv/file.csv", 5),
    ]);
    let listing = reg.list();
    let paths: Vec<&str> = listing.iter().map(|(_, p)| p.as_str()).collect();
    assert_eq!(paths, vec!["a.csv", "dir.csv/file.csv"]);
}

#[test]
fn list_returns_present_records_by_ascending_id() {
    let mut reg = KnownFiles::new("root", Vec::new());
    reg.generate(&vec![entry("a.csv", 10), entry("b.csv", 5), entry("c.csv", 7)]);
    // ids: b.csv -> 0, c.csv -> 1, a.csv -> 2
    reg.generate(&vec![entry("a.csv", 10), entry("c.csv", 7)]);
    let listing = reg.list();
    assert_eq!(listing.len(), 2);
    assert_eq!(listing[0].0, 1);
    assert_eq!(listing[0].1, "c.csv");
    assert_eq!(listing[1].0, 2);
    assert_eq!(listing[1].1, "a.csv");
}

#[test]
fn root_is_kept() {
    let reg = KnownFiles::new("some/root", Vec::new());
    assert_eq!(reg.root(), "some/root");
}
