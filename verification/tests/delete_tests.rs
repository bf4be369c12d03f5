use cratesfyi::catalog::{Catalog, DependentTable};
use cratesfyi::delete::{delete_crate, delete_crate_from_database, delete_version, DeleteError};
use cratesfyi::storage::{Blob, BlobStore};

fn fake_release(catalog: &mut Catalog, name: &str, version: &str, time: u64) -> u32 {
    let crate_id = catalog.register_crate(name);
    catalog.insert_release(crate_id, version, time)
}

fn store_page(store: &mut BlobStore, path: &str) {
    let mut txn = store.start_storage_transaction();
    txn.store_batch(vec![Blob {
        path: path.to_string(),
        mime: "text/html".to_string(),
        content: b"<html></html>".to_vec(),
        compression: None,
        date_updated: 0,
    }])
    .unwrap();
    txn.complete(store, 1).unwrap();
}

#[test]
fn test_delete_from_database() {
    let mut catalog = Catalog::new();

    // Create fake packages in the catalog
    let pkg1_v1_id = fake_release(&mut catalog, "package-1", "1.0.0", 100);
    let pkg1_v2_id = fake_release(&mut catalog, "package-1", "2.0.0", 200);
    let pkg2_id = fake_release(&mut catalog, "package-2", "1.0.0", 100);

    assert!(catalog.crate_exists("package-1"));
    assert!(catalog.crate_exists("package-2"));
    assert!(catalog.release_exists(pkg1_v1_id));
    assert!(catalog.release_exists(pkg1_v2_id));
    assert!(catalog.release_exists(pkg2_id));

    let pkg1_id = catalog.crate_id_by_name("package-1").unwrap();

    delete_crate_from_database(&mut catalog, "package-1", pkg1_id, false).unwrap();

    assert!(!catalog.crate_exists("package-1"));
    assert!(catalog.crate_exists("package-2"));
    assert!(!catalog.release_exists(pkg1_v1_id));
    assert!(!catalog.release_exists(pkg1_v2_id));
    assert!(catalog.release_exists(pkg2_id));
}

#[test]
fn test_delete_version() {
    let mut catalog = Catalog::new();
    let mut store = BlobStore::new();

    let v1 = fake_release(&mut catalog, "a", "1.0.0", 100);
    catalog.add_dependent_row(DependentTable::AuthorRels, v1, "malicious actor");
    let v2 = fake_release(&mut catalog, "a", "2.0.0", 200);
    catalog.add_dependent_row(DependentTable::AuthorRels, v2, "Peter Rabbit");
    assert!(catalog.release_exists(v1));
    assert!(catalog.release_exists(v2));
    let crate_id = catalog.crate_id_by_name("a").unwrap();
    assert_eq!(
        catalog.authors(crate_id),
        vec!["malicious actor".to_string(), "Peter Rabbit".to_string()]
    );

    store_page(&mut store, "rustdoc/a/1.0.0/a/index.html");
    store_page(&mut store, "rustdoc/a/2.0.0/a/index.html");

    delete_version(&mut catalog, &mut store, "a", "1.0.0", false).unwrap();
    assert!(!catalog.release_exists(v1));
    assert!(catalog.release_exists(v2));
    assert_eq!(catalog.authors(crate_id), vec!["Peter Rabbit".to_string()]);

    // the deleted version's pages are gone; the remaining version still serves
    assert!(store.blob_exists("rustdoc/a/2.0.0/a/index.html"));
    assert!(!store.blob_exists("rustdoc/a/1.0.0/a/index.html"));
}

#[test]
fn deleting_missing_crate_reports_not_found() {
    let mut catalog = Catalog::new();
    let mut store = BlobStore::new();

    assert_eq!(
        delete_crate(&mut catalog, &mut store, "absent", false),
        Err(DeleteError::MissingCrate)
    );
    assert_eq!(
        delete_version(&mut catalog, &mut store, "absent", "1.0.0", false),
        Err(DeleteError::MissingCrate)
    );
}

#[test]
fn metadata_fault_rolls_back_and_skips_blob_phase() {
    let mut catalog = Catalog::new();
    let mut store = BlobStore::new();

    let v1 = fake_release(&mut catalog, "pkg", "1.0.0", 100);
    catalog.add_dependent_row(DependentTable::Builds, v1, "build record");
    store_page(&mut store, "rustdoc/pkg/1.0.0/pkg/index.html");

    assert_eq!(
        delete_crate(&mut catalog, &mut store, "pkg", true),
        Err(DeleteError::TransactionFailed)
    );

    // no partial removal anywhere: metadata and blobs are fully retrievable
    assert!(catalog.crate_exists("pkg"));
    assert!(catalog.release_exists(v1));
    let cid = catalog.crate_id_by_name("pkg").unwrap();
    assert_eq!(catalog.latest_version_id_of(cid), Some(v1));
    assert!(store.blob_exists("rustdoc/pkg/1.0.0/pkg/index.html"));

    assert_eq!(
        delete_version(&mut catalog, &mut store, "pkg", "1.0.0", true),
        Err(DeleteError::TransactionFailed)
    );
    assert!(catalog.release_exists(v1));
    assert!(store.blob_exists("rustdoc/pkg/1.0.0/pkg/index.html"));
}

#[test]
fn end_to_end_version_deletion() {
    let mut catalog = Catalog::new();
    let mut store = BlobStore::new();

    let v1 = fake_release(&mut catalog, "pkg-a", "1.0.0", 100);
    catalog.add_dependent_row(DependentTable::KeywordRels, v1, "parser");
    let v2 = fake_release(&mut catalog, "pkg-a", "2.0.0", 200);
    catalog.add_dependent_row(DependentTable::KeywordRels, v2, "parser");
    store_page(&mut store, "rustdoc/pkg-a/1.0.0/pkg_a/index.html");
    store_page(&mut store, "rustdoc/pkg-a/2.0.0/pkg_a/index.html");
    store_page(&mut store, "sources/pkg-a/1.0.0/src/lib.rs.html");

    let cid = catalog.crate_id_by_name("pkg-a").unwrap();
    assert_eq!(catalog.latest_version_id_of(cid), Some(v2));

    delete_version(&mut catalog, &mut store, "pkg-a", "1.0.0", false).unwrap();

    // the version's dependent rows and blobs are gone
    assert!(!catalog.release_exists(v1));
    assert!(!store.blob_exists("rustdoc/pkg-a/1.0.0/pkg_a/index.html"));
    assert!(!store.blob_exists("sources/pkg-a/1.0.0/src/lib.rs.html"));

    // the other version is untouched, and the latest pointer resolves to it
    assert!(catalog.release_exists(v2));
    assert!(store.blob_exists("rustdoc/pkg-a/2.0.0/pkg_a/index.html"));
    assert_eq!(catalog.latest_version_id_of(cid), Some(v2));
}

#[test]
fn deleting_crate_removes_owners_and_overrides() {
    let mut catalog = Catalog::new();
    let mut store = BlobStore::new();

    let v1 = fake_release(&mut catalog, "pkg", "1.0.0", 100);
    let cid = catalog.crate_id_by_name("pkg").unwrap();
    catalog.add_owner(cid, "owner");
    catalog.add_dependent_row(DependentTable::DocCoverage, v1, "98");
    let other = fake_release(&mut catalog, "other", "1.0.0", 50);
    store_page(&mut store, "rustdoc/pkg/1.0.0/pkg/index.html");
    store_page(&mut store, "rustdoc/other/1.0.0/other/index.html");

    delete_crate(&mut catalog, &mut store, "pkg", false).unwrap();

    assert!(!catalog.crate_exists("pkg"));
    assert!(!catalog.release_exists(v1));
    assert!(catalog.release_exists(other));
    assert!(!store.blob_exists("rustdoc/pkg/1.0.0/pkg/index.html"));
    assert!(store.blob_exists("rustdoc/other/1.0.0/other/index.html"));
}
