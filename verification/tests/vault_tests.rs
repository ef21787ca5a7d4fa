use rusty_pstore::store::{Pass, PassInfo};
use rusty_pstore::vault::{
    add_pass, all_names_splittable, create_pass_data, get_names, get_pass_info,
    get_pass_info_checked, init_pass_data, login, login_checked, login_ready, names_ready,
    pass_info_ready,
};

const IV: [u8; 12] = [0, 1, 2, 3, 4, 5, 6, 7, 8, 9, 10, 11];
const SALT: &[u8; 16] = b"saltsaltsaltsalt";
const KEY_B64: &str = "OZLfWud/4BTmyWarcH6v4iV7YYRiO9NN6goPOp7I9fI=";
const IV_B64: &str = "AAECAwQFBgcICQoL";

fn new_file() -> Pass {
    create_pass_data("hunter2", &IV, SALT).unwrap()
}

#[test]
fn new_file_holds_the_check_entry() {
    let p = new_file();
    assert_eq!(p.len(), 1);
    let (name, info) = &p.entries()[0];
    assert_eq!(name, "SngJbdtawg==rV/AMr+bDObOUFAFJEnufQ==");
    assert_eq!(info.username, IV_B64);
    assert_eq!(info.password, "c2FsdHNhbHRzYWx0c2FsdA==");
    assert_eq!(info.url, None);
}

#[test]
fn login_opens_a_new_file_with_its_password() {
    let p = new_file();
    assert!(all_names_splittable(&p));
    let r = login(&p, "hunter2").unwrap();
    assert_eq!(r, vec![KEY_B64.to_string(), IV_B64.to_string()]);
    // white space around the password does not matter
    assert_eq!(login(&p, "  hunter2\n").unwrap(), r);
}

#[test]
fn login_refuses_a_wrong_password() {
    let p = new_file();
    assert_eq!(login(&p, "hunter3"), None);
}

#[test]
fn login_on_an_empty_file_finds_nothing() {
    assert_eq!(login(&Pass::new(), "hunter2"), None);
}

#[test]
fn login_skips_entries_that_do_not_unlock() {
    let mut p = new_file();
    // an entry that is not a check entry for this password
    p.insert(
        String::from("ckoLbNI=sGPWfYw0wsaed59E1N/kgA=="),
        PassInfo {
            username: String::from("dEsDZts=wapSlj2P7kM+hc6ORCpvig=="),
            password: String::from("ZhQJd9tNkT+/7JS6Xq+Cn3cbvqx6vQ=="),
            url: None,
        },
    );
    let r = login(&p, "hunter2").unwrap();
    assert_eq!(r, vec![KEY_B64.to_string(), IV_B64.to_string()]);
}

#[test]
fn init_pass_data_makes_files_that_open() {
    let p = init_pass_data("pw").unwrap();
    assert_eq!(p.len(), 1);
    let r = login(&p, "pw").unwrap();
    assert_eq!(r.len(), 2);
    assert_eq!(r[1], p.entries()[0].1.username);
    // the nonce and the salt are random, not left at zero
    assert_ne!(p.entries()[0].1.username, "AAAAAAAAAAAAAAAA");
    assert_ne!(p.entries()[0].1.password, "AAAAAAAAAAAAAAAAAAAAAA==");
    let q = init_pass_data("pw").unwrap();
    assert_ne!(q.entries()[0].1.username, p.entries()[0].1.username);
}

#[test]
fn add_pass_stores_encrypted_entry() {
    let mut p = new_file();
    assert!(add_pass(&mut p, KEY_B64, IV_B64, "gmail", "alice", "s3cret", "https://mail.google.com"));
    assert_eq!(p.len(), 2);
    let stored = p.get(&String::from("ckoLbNI=sGPWfYw0wsaed59E1N/kgA==")).unwrap();
    assert_eq!(stored.username, "dEsDZts=wapSlj2P7kM+hc6ORCpvig==");
    assert_eq!(stored.password, "ZhQJd9tNkT+/7JS6Xq+Cn3cbvqx6vQ==");
    assert_eq!(stored.url.as_deref(), Some("fVMedc0DhgC8x4rUW+HdB77MkwNGk4g=8mA6Rv0oV3sFxyPu3xsN5A=="));
}

#[test]
fn add_pass_with_a_bad_key_changes_nothing() {
    let mut p = new_file();
    assert!(!add_pass(&mut p, "not base64", IV_B64, "gmail", "alice", "s3cret", ""));
    assert_eq!(p.len(), 1);
}

#[test]
fn get_pass_info_returns_what_add_pass_stored() {
    let mut p = new_file();
    assert!(add_pass(&mut p, KEY_B64, IV_B64, "gmail", "alice", "s3cret", "https://mail.google.com"));
    assert!(add_pass(&mut p, KEY_B64, IV_B64, "bank", "bob", "hunter2", ""));
    assert_eq!(
        get_pass_info(&p, KEY_B64, IV_B64, "gmail"),
        vec!["alice".to_string(), "s3cret".to_string(), "https://mail.google.com".to_string()]
    );
    assert_eq!(
        get_pass_info(&p, KEY_B64, IV_B64, "bank"),
        vec!["bob".to_string(), "hunter2".to_string(), String::new()]
    );
}

#[test]
fn add_pass_twice_replaces_the_entry() {
    let mut p = new_file();
    assert!(add_pass(&mut p, KEY_B64, IV_B64, "gmail", "alice", "old", ""));
    assert!(add_pass(&mut p, KEY_B64, IV_B64, "gmail", "alice", "new", ""));
    assert_eq!(p.len(), 2);
    assert_eq!(
        get_pass_info(&p, KEY_B64, IV_B64, "gmail"),
        vec!["alice".to_string(), "new".to_string(), String::new()]
    );
}

#[test]
fn get_pass_info_misses() {
    let mut p = new_file();
    assert!(add_pass(&mut p, KEY_B64, IV_B64, "gmail", "alice", "s3cret", ""));
    assert!(get_pass_info(&p, KEY_B64, IV_B64, "outlook").is_empty());
    assert!(get_pass_info(&p, KEY_B64, IV_B64, "").is_empty());
    assert!(get_pass_info(&p, "not base64", IV_B64, "gmail").is_empty());
    // an entry with nothing in it is not found
    assert!(add_pass(&mut p, KEY_B64, IV_B64, "blank", "", "", ""));
    assert!(get_pass_info(&p, KEY_B64, IV_B64, "blank").is_empty());
}

#[test]
fn get_pass_info_of_a_field_that_does_not_decrypt() {
    let mut p = new_file();
    p.insert(
        String::from("ckoLbNI=sGPWfYw0wsaed59E1N/kgA=="),
        PassInfo {
            username: String::from("dEsDZts=wapSlj2P7kM+hc6ORCpvig=="),
            password: String::from("AAAAAAAAAAAAAAAAAAAAAAAAAAAAAAAA"),
            url: None,
        },
    );
    assert_eq!(
        get_pass_info(&p, KEY_B64, IV_B64, "gmail"),
        vec!["alice".to_string(), "Unable to decrypt password".to_string(), "no url".to_string()]
    );
}

#[test]
fn get_pass_info_checked_refuses_what_would_not_run() {
    let mut p = new_file();
    assert!(add_pass(&mut p, KEY_B64, IV_B64, "gmail", "alice", "s3cret", ""));
    assert_eq!(
        get_pass_info_checked(&p, KEY_B64, IV_B64, "gmail"),
        Some(vec!["alice".to_string(), "s3cret".to_string(), String::new()])
    );
    // a key of the wrong length
    assert_eq!(get_pass_info_checked(&p, "AAAA", IV_B64, "gmail"), None);
    // an entry whose name is too short to hold a tag
    p.insert(
        String::from("short"),
        PassInfo { username: String::new(), password: String::new(), url: None },
    );
    assert!(!all_names_splittable(&p));
    assert_eq!(get_pass_info_checked(&p, KEY_B64, IV_B64, "gmail"), None);
}

#[test]
fn get_names_lists_added_names() {
    let mut p = new_file();
    assert!(get_names(&p, KEY_B64, IV_B64).is_empty());
    assert!(add_pass(&mut p, KEY_B64, IV_B64, "gmail", "alice", "s3cret", ""));
    assert!(add_pass(&mut p, KEY_B64, IV_B64, "bank", "bob", "pin", ""));
    assert_eq!(get_names(&p, KEY_B64, IV_B64), vec!["gmail".to_string(), "bank".to_string()]);
    assert!(get_names(&p, "not base64", IV_B64).is_empty());
}

#[test]
fn a_short_key_is_harmless_where_no_name_reaches_the_cipher() {
    let p = new_file();
    // the nonce is not base64, so no name gets as far as the cipher
    assert!(names_ready(&p, &[0u8; 3], &String::from("not base64!")));
    assert!(get_names(&p, "AAAA", "not base64!").is_empty());
    // a nonce of 3 bytes: decryption stops before the cipher
    assert_eq!(get_pass_info_checked(&p, "AAAA", "AAAA", "gmail"), Some(Vec::new()));
    assert!(pass_info_ready(&p, &String::from("gmail"), &[0u8; 3], &String::from("AAAA")));
    // with the right nonce the short key would reach the cipher
    assert!(!names_ready(&p, &[0u8; 3], &String::from(IV_B64)));
    assert_eq!(get_pass_info_checked(&p, "AAAA", IV_B64, "gmail"), None);
}

#[test]
fn get_names_with_a_key_that_is_not_base64_is_empty_whatever_the_file() {
    let mut p = new_file();
    p.insert(
        String::from("short"),
        PassInfo { username: String::new(), password: String::new(), url: None },
    );
    assert!(get_names(&p, "not base64", IV_B64).is_empty());
}

#[test]
fn history_of_adds_keeps_login_and_lists_each_name_once() {
    let mut p = new_file();
    let v = login(&p, "hunter2").unwrap();
    assert!(add_pass(&mut p, &v[0], &v[1], "gmail", "alice", "one", ""));
    assert!(add_pass(&mut p, &v[0], &v[1], "bank", "bob", "two", "https://bank"));
    assert!(add_pass(&mut p, &v[0], &v[1], "gmail", "alice", "three", ""));
    assert_eq!(login(&p, "hunter2").unwrap(), v);
    let mut names = get_names(&p, &v[0], &v[1]);
    names.sort();
    assert_eq!(names, vec!["bank".to_string(), "gmail".to_string()]);
    assert_eq!(
        get_pass_info(&p, &v[0], &v[1], "gmail"),
        vec!["alice".to_string(), "three".to_string(), String::new()]
    );
    assert_eq!(
        get_pass_info(&p, &v[0], &v[1], "bank"),
        vec!["bob".to_string(), "two".to_string(), "https://bank".to_string()]
    );
}

fn listing(p: &Pass) -> Vec<(String, String, String, Option<String>)> {
    p.entries()
        .iter()
        .map(|(n, i)| (n.clone(), i.username.clone(), i.password.clone(), i.url.clone()))
        .collect()
}

fn reversed(p: &Pass) -> Pass {
    let mut q = Pass::new();
    for (n, i) in p.entries().iter().rev() {
        q.insert(
            n.clone(),
            PassInfo { username: i.username.clone(), password: i.password.clone(), url: i.url.clone() },
        );
    }
    q
}

#[test]
fn add_pass_twice_with_the_same_arguments_changes_nothing_the_second_time() {
    let mut p = new_file();
    assert!(add_pass(&mut p, KEY_B64, IV_B64, "gmail", "alice", "s3cret", "https://mail.google.com"));
    let once = listing(&p);
    assert!(add_pass(&mut p, KEY_B64, IV_B64, "gmail", "alice", "s3cret", "https://mail.google.com"));
    assert_eq!(listing(&p), once);
}

#[test]
fn history_holds_whatever_the_order_of_the_entries() {
    let mut p = new_file();
    let v = login(&p, "hunter2").unwrap();
    assert!(add_pass(&mut p, &v[0], &v[1], "gmail", "alice", "one", ""));
    assert!(add_pass(&mut p, &v[0], &v[1], "bank", "bob", "two", "https://bank"));
    // the file read back lists its entries in another order: the check entry last
    let mut q = reversed(&p);
    assert_eq!(q.entries()[2].0, p.entries()[0].0);
    assert_eq!(login(&q, "hunter2").unwrap(), v);
    assert_eq!(get_names(&q, &v[0], &v[1]), vec!["bank".to_string(), "gmail".to_string()]);
    // an addition to the reordered file, read back in yet another order
    assert!(add_pass(&mut q, &v[0], &v[1], "gmail", "alice", "three", ""));
    let r = reversed(&q);
    assert_eq!(login(&r, "hunter2").unwrap(), v);
    let mut names = get_names(&r, &v[0], &v[1]);
    names.sort();
    assert_eq!(names, vec!["bank".to_string(), "gmail".to_string()]);
    assert_eq!(
        get_pass_info(&r, &v[0], &v[1], "gmail"),
        vec!["alice".to_string(), "three".to_string(), String::new()]
    );
    assert_eq!(
        get_pass_info(&r, &v[0], &v[1], "bank"),
        vec!["bob".to_string(), "two".to_string(), "https://bank".to_string()]
    );
}

#[test]
fn login_needs_only_the_names_up_to_the_check_entry() {
    let mut p = new_file();
    let short = PassInfo { username: String::new(), password: String::new(), url: None };
    // after the check entry, a name that cannot be cut is never decrypted
    p.insert(String::from("short"), short);
    assert!(!all_names_splittable(&p));
    let v = vec![KEY_B64.to_string(), IV_B64.to_string()];
    assert_eq!(login_checked(&p, "hunter2"), Some(Some(v)));
    // before the check entry, it is reached whatever the password
    let q = reversed(&p);
    assert!(!login_ready(&q, "hunter2"));
    assert_eq!(login_checked(&q, "hunter2"), None);
}

#[test]
fn login_checked_refuses_a_wrong_password_that_reaches_a_bad_name() {
    let mut p = new_file();
    assert_eq!(login_checked(&p, "hunter3"), Some(None));
    let short = PassInfo { username: String::new(), password: String::new(), url: None };
    p.insert(String::from("short"), short);
    assert!(!login_ready(&p, "hunter3"));
}
