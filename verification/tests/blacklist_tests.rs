use cratesfyi::blacklist::{add_crate, is_blacklisted, list_crates, remove_crate, Blacklist};

#[test]
fn test_list_blacklist() {
    let mut list = Blacklist::new();

    // crates are added out of order to verify sorting
    add_crate(&mut list, "crate A").unwrap();
    add_crate(&mut list, "crate C").unwrap();
    add_crate(&mut list, "crate B").unwrap();

    assert!(list_crates(&list) == vec!["crate A", "crate B", "crate C"]);
}

#[test]
fn test_add_to_and_remove_from_blacklist() {
    let mut list = Blacklist::new();

    assert!(!is_blacklisted(&list, "crate foo"));
    add_crate(&mut list, "crate foo").unwrap();
    assert!(is_blacklisted(&list, "crate foo"));
    remove_crate(&mut list, "crate foo").unwrap();
    assert!(!is_blacklisted(&list, "crate foo"));
}

#[test]
fn test_add_twice_to_blacklist() {
    let mut list = Blacklist::new();

    add_crate(&mut list, "crate foo").unwrap();
    assert!(add_crate(&mut list, "crate foo").is_err());
    add_crate(&mut list, "crate bar").unwrap();
}

#[test]
fn test_remove_non_existing_crate() {
    let mut list = Blacklist::new();

    assert!(remove_crate(&mut list, "crate foo").is_err());
}
