use cratesfyi::activity::{assemble_release_activity, current_activity_labels,
    release_activity_labels};
use cratesfyi::builds::{find_build_details, strip_build_outputs, Build};
use cratesfyi::like::{build_prefix_pattern, like_match, str_like_match};
use cratesfyi::metadata::{CargoMetadata, Package, Target};
use cratesfyi::pool::{AcquireAction, Pool, PoolConfig, PoolError};

#[test]
fn like_matching_follows_sql_rules() {
    assert!(str_like_match("cratesfyi-%", "cratesfyi-database"));
    assert!(str_like_match("cratesfyi-%", "cratesfyi-"));
    assert!(!str_like_match("cratesfyi-%", "cratesfyi"));
    assert!(str_like_match("_c_", "rcc"));
    assert!(!str_like_match("_c_", "rc"));
    assert!(str_like_match("hexponent", "hexponent"));
    assert!(!str_like_match("hexponent", "hexponents"));
    // a backslash escapes the following metacharacter
    assert!(str_like_match("50\\%%", "50%old"));
    assert!(!str_like_match("50\\%%", "500old"));
}

#[test]
fn prefix_patterns_escape_every_metacharacter() {
    let pattern = build_prefix_pattern("a%b_c\\d");
    assert_eq!(
        pattern.iter().collect::<String>(),
        "a\\%b\\_c\\\\d%"
    );
    let key: Vec<char> = "a%b_c\\d/rest".chars().collect();
    assert!(like_match(&pattern, &key));
    let other: Vec<char> = "aXb_c\\d/rest".chars().collect();
    assert!(!like_match(&pattern, &other));
}

#[test]
fn activity_labels_render_oldest_first() {
    // moment zero is 1970-01-01; 29 days earlier is 1969-12-03
    let labels = release_activity_labels(0);
    assert_eq!(labels.len(), 30);
    assert_eq!(labels[0], "03 Dec");
    assert_eq!(labels[29], "01 Jan");

    let now_labels = current_activity_labels();
    assert_eq!(now_labels.len(), 30);
}

#[test]
fn activity_counts_reverse_into_oldest_first() {
    let counts: Vec<i64> = (0..30).collect();
    let failures: Vec<i64> = (100..130).collect();
    let table = assemble_release_activity(0, counts, failures);
    assert_eq!(table.dates.len(), 30);
    assert_eq!(table.counts[0], 29);
    assert_eq!(table.counts[29], 0);
    assert_eq!(table.failures[0], 129);
    assert_eq!(table.failures[29], 100);
}

#[test]
fn build_details_pick_the_first_matching_id() {
    let builds = vec![
        Build {
            id: 3,
            rustc_version: "rustc 1.46.0".to_string(),
            docsrs_version: "docsrs 0.6.0".to_string(),
            build_status: true,
            build_time: 10,
            output: Some("fine".to_string()),
        },
        Build {
            id: 2,
            rustc_version: "rustc 1.45.0".to_string(),
            docsrs_version: "docsrs 0.6.0".to_string(),
            build_status: false,
            build_time: 5,
            output: Some("failed".to_string()),
        },
    ];
    assert_eq!(find_build_details(&builds, 2), Some(1));
    assert_eq!(find_build_details(&builds, 7), None);

    let stripped = strip_build_outputs(builds);
    assert_eq!(stripped.len(), 2);
    assert!(stripped.iter().all(|b| b.output.is_none()));
    assert_eq!(stripped[0].id, 3);
    assert_eq!(stripped[0].rustc_version, "rustc 1.46.0");
}

#[test]
fn package_names_come_from_the_library_target() {
    let lib = Target::dummy_lib("my-crate".to_string(), None);
    let pkg = Package {
        id: "my-crate 1.0.0".to_string(),
        name: "my-crate".to_string(),
        targets: vec![lib],
    };
    assert!(pkg.is_library());
    assert_eq!(pkg.library_name(), Some("my_crate".to_string()));
    assert_eq!(pkg.package_name(), "my_crate");
    assert_eq!(pkg.normalize_package_name("a-b-c"), "a_b_c");

    let bin = Target {
        name: "tool".to_string(),
        crate_types: vec!["bin".to_string()],
        src_path: None,
    };
    let binary_pkg = Package {
        id: "tool 1.0.0".to_string(),
        name: "tool".to_string(),
        targets: vec![bin],
    };
    assert!(!binary_pkg.is_library());
    assert_eq!(binary_pkg.library_name(), None);
    assert_eq!(binary_pkg.package_name(), "tool");

    let meta = CargoMetadata::from_root(binary_pkg);
    assert_eq!(meta.root().name, "tool");
}

#[test]
fn pool_accounts_for_acquisitions_and_releases() {
    let bad = Pool::new(PoolConfig { max_size: 0, min_idle: 0, url_well_formed: true });
    assert_eq!(bad.unwrap_err(), PoolError::InvalidConfiguration);
    let bad_url = Pool::new(PoolConfig { max_size: 2, min_idle: 0, url_well_formed: false });
    assert_eq!(bad_url.unwrap_err(), PoolError::InvalidConfiguration);

    let mut pool = Pool::new(PoolConfig { max_size: 2, min_idle: 0, url_well_formed: true })
        .unwrap();
    assert_eq!(pool.max_size(), 2);
    assert_eq!(pool.acquire(), AcquireAction::OpenNew);
    assert_eq!(pool.acquire(), AcquireAction::OpenNew);
    assert_eq!(pool.used_connections(), 2);
    // at the ceiling: a further caller waits rather than being rejected
    assert_eq!(pool.acquire(), AcquireAction::Wait);
    pool.release();
    assert_eq!(pool.idle_connections(), 1);
    assert_eq!(pool.acquire(), AcquireAction::ReuseIdle);
    assert_eq!(pool.used_connections(), 2);
    assert_eq!(pool.idle_connections(), 0);
}
