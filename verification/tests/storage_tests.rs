use cratesfyi::storage::{Blob, BlobStore, CompressionAlgorithm, StorageError, MAX_BLOB_SIZE};

fn blob(path: &str, content: &[u8], compression: Option<CompressionAlgorithm>) -> Blob {
    Blob {
        path: path.to_string(),
        mime: "application/octet-stream".to_string(),
        content: content.to_vec(),
        compression,
        date_updated: 0,
    }
}

#[test]
fn store_batch_then_get_round_trips() {
    let mut store = BlobStore::new();
    let mut txn = store.start_storage_transaction();
    txn.store_batch(vec![blob(
        "rustdoc/demo/1.0.0/demo/index.html",
        b"payload bytes",
        Some(CompressionAlgorithm::Zstd),
    )])
    .unwrap();
    txn.complete(&mut store, 42).unwrap();

    let got = store
        .get("rustdoc/demo/1.0.0/demo/index.html", 13)
        .unwrap();
    assert_eq!(got.content, b"payload bytes".to_vec());
    assert_eq!(got.mime, "application/octet-stream");
    assert_eq!(got.compression, Some(CompressionAlgorithm::Zstd));
    assert_eq!(got.date_updated, 42);
    assert_eq!(store.uploaded_files_total(), 1);
}

#[test]
fn storing_twice_upserts_instead_of_duplicating() {
    let mut store = BlobStore::new();
    let mut txn = store.start_storage_transaction();
    txn.store_batch(vec![blob("a/file", b"first", None)]).unwrap();
    txn.complete(&mut store, 1).unwrap();

    let mut txn = store.start_storage_transaction();
    txn.store_batch(vec![blob("a/file", b"second version", None)]).unwrap();
    txn.complete(&mut store, 2).unwrap();

    let got = store.get("a/file", 1000).unwrap();
    assert_eq!(got.content, b"second version".to_vec());
    assert_eq!(got.date_updated, 2);
    // one blob at the path: deleting its prefix empties the store
    store.delete_prefix("a/").unwrap();
    assert!(!store.blob_exists("a/file"));
}

#[test]
fn size_ceiling_is_exact() {
    let mut store = BlobStore::new();
    let mut txn = store.start_storage_transaction();
    txn.store_batch(vec![blob("a/sized", b"0123456789", None)]).unwrap();
    txn.complete(&mut store, 1).unwrap();

    assert_eq!(store.get("a/sized", 9).unwrap_err(), StorageError::SizeLimitExceeded);
    assert_eq!(store.get("a/sized", 10).unwrap().content, b"0123456789".to_vec());
}

#[test]
fn missing_path_reports_not_found() {
    let store = BlobStore::new();
    assert_eq!(store.get("nowhere", 100).unwrap_err(), StorageError::PathNotFound);
}

#[test]
fn unknown_compression_code_is_corrupt_data() {
    let mut store = BlobStore::new();
    store.put_raw_row("a/old-blob", "text/html", b"x".to_vec(), Some(77), 5);
    assert_eq!(store.get("a/old-blob", 100).unwrap_err(), StorageError::CorruptData);
    // the row is still there and still probes as existing
    assert!(store.blob_exists("a/old-blob"));
}

#[test]
fn oversized_write_fails_the_whole_batch() {
    let mut store = BlobStore::new();
    let mut txn = store.start_storage_transaction();
    let too_big = Blob {
        path: "a/too-big".to_string(),
        mime: "application/octet-stream".to_string(),
        content: vec![0u8; MAX_BLOB_SIZE + 1],
        compression: None,
        date_updated: 0,
    };
    assert_eq!(
        txn.store_batch(vec![blob("a/fine", b"ok", None), too_big]),
        Err(StorageError::BlobTooLarge)
    );
    txn.complete(&mut store, 1).unwrap();
    // the batch was one atomic unit: nothing from it is visible
    assert!(!store.blob_exists("a/fine"));
    assert!(!store.blob_exists("a/too-big"));
}

#[test]
fn delete_prefix_is_idempotent() {
    let mut store = BlobStore::new();
    let mut txn = store.start_storage_transaction();
    txn.store_batch(vec![
        blob("docs/pkg/1/a", b"a", None),
        blob("docs/pkg/1/b", b"b", None),
        blob("docs/other/1/a", b"c", None),
    ])
    .unwrap();
    txn.complete(&mut store, 1).unwrap();

    store.delete_prefix("docs/pkg/").unwrap();
    assert!(!store.blob_exists("docs/pkg/1/a"));
    assert!(!store.blob_exists("docs/pkg/1/b"));
    assert!(store.blob_exists("docs/other/1/a"));

    // a second deletion of the same prefix never errors and changes nothing
    store.delete_prefix("docs/pkg/").unwrap();
    assert!(!store.blob_exists("docs/pkg/1/a"));
    assert!(store.blob_exists("docs/other/1/a"));
}

#[test]
fn metacharacters_in_prefixes_stay_literal() {
    let mut store = BlobStore::new();
    let mut txn = store.start_storage_transaction();
    txn.store_batch(vec![
        blob("50%old", b"percent", None),
        blob("500old", b"digit", None),
        blob("50_old", b"underscore", None),
        blob("50xold", b"letter", None),
    ])
    .unwrap();
    txn.complete(&mut store, 1).unwrap();

    // "%" in the prefix matches only itself, never an arbitrary run
    store.delete_prefix("50%").unwrap();
    assert!(!store.blob_exists("50%old"));
    assert!(store.blob_exists("500old"));
    assert!(store.blob_exists("50_old"));
    assert!(store.blob_exists("50xold"));

    // "_" in the prefix matches only itself, never an arbitrary character
    store.delete_prefix("50_").unwrap();
    assert!(!store.blob_exists("50_old"));
    assert!(store.blob_exists("500old"));
    assert!(store.blob_exists("50xold"));
}

#[test]
fn dropping_a_transaction_rolls_back() {
    let store = BlobStore::new();
    {
        let mut txn = store.start_storage_transaction();
        txn.store_batch(vec![blob("a/pending", b"data", None)]).unwrap();
        txn.delete_prefix("a/").unwrap();
        // never completed: every buffered operation is abandoned
    }
    assert!(!store.blob_exists("a/pending"));
    assert_eq!(store.uploaded_files_total(), 0);
}

#[test]
fn exists_probe_matches_contents() {
    let mut store = BlobStore::new();
    assert!(!store.blob_exists("a/file"));
    let mut txn = store.start_storage_transaction();
    txn.store_batch(vec![blob("a/file", b"x", None)]).unwrap();
    txn.complete(&mut store, 1).unwrap();
    assert!(store.blob_exists("a/file"));
}
