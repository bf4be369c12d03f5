use cratesfyi::queue::{
    get_crate_priority, remove_crate_priority, set_crate_priority, PriorityTable,
    DEFAULT_PRIORITY,
};

#[test]
fn set_priority() {
    let mut table = PriorityTable::new();

    set_crate_priority(&mut table, "cratesfyi-%", -100);
    assert_eq!(get_crate_priority(&table, "cratesfyi-database"), -100);
    assert_eq!(get_crate_priority(&table, "cratesfyi-"), -100);
    assert_eq!(get_crate_priority(&table, "cratesfyi-s3"), -100);
    assert_eq!(get_crate_priority(&table, "cratesfyi-webserver"), -100);
    assert_eq!(get_crate_priority(&table, "cratesfyi"), DEFAULT_PRIORITY);

    set_crate_priority(&mut table, "_c_", 100);
    assert_eq!(get_crate_priority(&table, "rcc"), 100);
    assert_eq!(get_crate_priority(&table, "rc"), DEFAULT_PRIORITY);

    set_crate_priority(&mut table, "hexponent", 10);
    assert_eq!(get_crate_priority(&table, "hexponent"), 10);
    assert_eq!(get_crate_priority(&table, "hexponents"), DEFAULT_PRIORITY);
    assert_eq!(get_crate_priority(&table, "floathexponent"), DEFAULT_PRIORITY);
}

#[test]
fn remove_priority() {
    let mut table = PriorityTable::new();

    set_crate_priority(&mut table, "cratesfyi-%", -100);
    assert_eq!(get_crate_priority(&table, "cratesfyi-"), -100);

    assert_eq!(remove_crate_priority(&mut table, "cratesfyi-%"), Some(-100));
    assert_eq!(get_crate_priority(&table, "cratesfyi-"), DEFAULT_PRIORITY);
}

#[test]
fn get_priority() {
    let mut table = PriorityTable::new();

    set_crate_priority(&mut table, "cratesfyi-%", -100);

    assert_eq!(get_crate_priority(&table, "cratesfyi-database"), -100);
    assert_eq!(get_crate_priority(&table, "cratesfyi-"), -100);
    assert_eq!(get_crate_priority(&table, "cratesfyi-s3"), -100);
    assert_eq!(get_crate_priority(&table, "cratesfyi-webserver"), -100);
    assert_eq!(get_crate_priority(&table, "unrelated"), DEFAULT_PRIORITY);
}

#[test]
fn get_default_priority() {
    let table = PriorityTable::new();

    assert_eq!(get_crate_priority(&table, "cratesfyi"), DEFAULT_PRIORITY);
    assert_eq!(get_crate_priority(&table, "rcc"), DEFAULT_PRIORITY);
    assert_eq!(get_crate_priority(&table, "lasso"), DEFAULT_PRIORITY);
    assert_eq!(get_crate_priority(&table, "hexponent"), DEFAULT_PRIORITY);
    assert_eq!(get_crate_priority(&table, "rust4lyfe"), DEFAULT_PRIORITY);
}
