use rusty_pstore::store::{Pass, PassInfo};

fn info(u: &str, p: &str, url: Option<&str>) -> PassInfo {
    PassInfo {
        username: u.to_string(),
        password: p.to_string(),
        url: url.map(|s| s.to_string()),
    }
}

#[test]
fn new_store_is_empty() {
    let p = Pass::new();
    assert_eq!(p.len(), 0);
    assert!(p.get(&String::from("x")).is_none());
}

#[test]
fn get_returns_what_insert_stored() {
    let mut p = Pass::new();
    assert!(p.insert(String::from("a"), info("ua", "pa", None)).is_none());
    assert!(p.insert(String::from("b"), info("ub", "pb", Some("url"))).is_none());
    assert_eq!(p.len(), 2);
    let a = p.get(&String::from("a")).unwrap();
    assert_eq!(a.username, "ua");
    assert_eq!(a.password, "pa");
    assert_eq!(a.url, None);
    let b = p.get(&String::from("b")).unwrap();
    assert_eq!(b.url.as_deref(), Some("url"));
    assert!(p.get(&String::from("c")).is_none());
}

#[test]
fn insert_replaces_and_returns_previous() {
    let mut p = Pass::new();
    p.insert(String::from("a"), info("u1", "p1", None));
    p.insert(String::from("b"), info("u2", "p2", None));
    let prev = p.insert(String::from("a"), info("u3", "p3", None)).unwrap();
    assert_eq!(prev.username, "u1");
    assert_eq!(p.len(), 2);
    assert_eq!(p.get(&String::from("a")).unwrap().username, "u3");
    assert_eq!(p.get(&String::from("b")).unwrap().username, "u2");
    // the entry keeps its place
    assert_eq!(p.entries()[0].0, "a");
    assert_eq!(p.entries()[1].0, "b");
}
