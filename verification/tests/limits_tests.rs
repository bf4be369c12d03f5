use cratesfyi::catalog::{Catalog, OverrideRow};
use cratesfyi::limits::Limits;

#[test]
fn retrieve_limits() {
    let mut catalog = Catalog::new();

    let krate = "hexponent";
    // limits work if no crate has limits set
    let hexponent = Limits::for_crate(&catalog, krate);
    assert_eq!(hexponent, Limits::default());

    catalog.set_sandbox_override(OverrideRow {
        crate_name: krate.to_string(),
        max_memory_bytes: None,
        timeout_seconds: None,
        max_targets: Some(15),
    });
    // limits work if crate has limits set
    let hexponent = Limits::for_crate(&catalog, krate);
    assert_eq!(hexponent, Limits { targets: 15, ..Limits::default() });

    // all limits work
    let krate = "regex";
    let limits = Limits {
        memory: 100_000,
        timeout_seconds: 300,
        targets: 1,
        ..Limits::default()
    };
    catalog.set_sandbox_override(OverrideRow {
        crate_name: krate.to_string(),
        max_memory_bytes: Some(limits.memory),
        timeout_seconds: Some(limits.timeout_seconds),
        max_targets: Some(limits.targets),
    });
    assert_eq!(limits, Limits::for_crate(&catalog, krate));
}

#[test]
fn targets_default_to_one_with_timeout() {
    let mut catalog = Catalog::new();
    let krate = "hexponent";
    catalog.set_sandbox_override(OverrideRow {
        crate_name: krate.to_string(),
        max_memory_bytes: None,
        timeout_seconds: Some(20 * 60),
        max_targets: None,
    });
    let limits = Limits::for_crate(&catalog, krate);
    assert_eq!(limits.targets(), 1);
}
