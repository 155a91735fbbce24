use modelstore::blob::{
    BlobEntry, BlobKey, BlobMetadata, BlobStorageError, BlobStorageMemory, UploadOptions,
};

#[test]
fn test_blob_put_and_get() {
    let mut storage = BlobStorageMemory::new();
    let key = BlobKey::new("test-key");
    storage
        .put(&key, b"hello world".to_vec(), &UploadOptions { overwrite: true })
        .unwrap();
    let data = storage.get(&key).unwrap();
    assert_eq!(data, b"hello world".to_vec());
    assert!(storage.exists_blob(&key));
    assert_eq!(storage.len(), 1);
}

#[test]
fn test_blob_head_metadata() {
    let mut storage = BlobStorageMemory::new();
    let key = BlobKey::new("test-key");
    storage
        .put(&key, b"hello world".to_vec(), &UploadOptions { overwrite: true })
        .unwrap();
    let meta = storage.head(&key).unwrap();
    assert_eq!(meta.size, 11);
    // the etag is the md5 digest of the content, not the content itself
    assert_eq!(meta.etag.as_deref(), Some("5eb63bbbe01eeed093cb22bb8f5acdc3"));
    assert!(meta.last_modified.is_some());
    assert!(storage.head(&BlobKey::new("missing")).is_none());
}

#[test]
fn test_blob_overwrite_flag() {
    let mut storage = BlobStorageMemory::new();
    let key = BlobKey::new("test-key");
    storage
        .put(&key, b"one".to_vec(), &UploadOptions::default())
        .unwrap();
    let refused = storage.put(&key, b"two".to_vec(), &UploadOptions::default());
    assert!(matches!(refused, Err(BlobStorageError::AlreadyExists(_))));
    assert_eq!(storage.get(&key).unwrap(), b"one".to_vec());
    storage
        .put(&key, b"two".to_vec(), &UploadOptions { overwrite: true })
        .unwrap();
    assert_eq!(storage.get(&key).unwrap(), b"two".to_vec());
    assert_eq!(storage.len(), 1);
}

#[test]
fn test_blob_delete() {
    let mut storage = BlobStorageMemory::new();
    let key = BlobKey::new("test-key");
    storage
        .put(&key, b"data".to_vec(), &UploadOptions::default())
        .unwrap();
    storage.delete(&key).unwrap();
    assert!(!storage.exists_blob(&key));
    assert!(matches!(
        storage.delete(&key),
        Err(BlobStorageError::NotFound(_))
    ));
    assert!(matches!(
        storage.get(&key),
        Err(BlobStorageError::NotFound(_))
    ));
}

#[test]
fn test_blob_presigned_url() {
    let mut storage = BlobStorageMemory::new();
    let key = BlobKey::new("doc.txt");
    storage
        .put(&key, b"x".to_vec(), &UploadOptions::default())
        .unwrap();
    let url = storage.get_presigned_url(&key, 3600).unwrap();
    assert_eq!(url, "memory://blob/doc.txt");
    assert!(matches!(
        storage.get_presigned_url(&key, u64::from(u32::MAX) + 1),
        Err(BlobStorageError::InvalidInput(_))
    ));
    assert!(matches!(
        storage.get_presigned_url(&BlobKey::new("missing"), 60),
        Err(BlobStorageError::NotFound(_))
    ));
}

#[test]
fn test_blob_entries_listing() {
    let mut storage = BlobStorageMemory::new();
    storage
        .put(&BlobKey::new("b"), b"22".to_vec(), &UploadOptions::default())
        .unwrap();
    storage
        .put(&BlobKey::new("a"), b"1".to_vec(), &UploadOptions::default())
        .unwrap();
    let entries = storage.entries();
    assert_eq!(entries.len(), 2);
    assert_eq!(entries[0].key.as_str(), "b");
    assert_eq!(entries[0].size, 2);
    assert_eq!(entries[1].key.as_str(), "a");
    assert_eq!(entries[1].size, 1);
    storage.clear();
    assert!(storage.is_empty());
}

#[test]
fn test_blob_key_roundtrip() {
    let key = BlobKey::new("reports/2024/summary.txt");
    assert_eq!(key.as_str(), "reports/2024/summary.txt");
    assert_eq!(key.clone().into_inner(), "reports/2024/summary.txt");
    assert!(key == BlobKey::new("reports/2024/summary.txt"));
    assert!(key != BlobKey::new("reports/2024/other.txt"));
}

#[test]
fn test_upload_options_default() {
    let options = UploadOptions::default();
    assert!(!options.overwrite);
}

#[test]
fn test_blob_entry_fields() {
    let entry = BlobEntry {
        key: BlobKey::new("a"),
        size: 11,
        last_modified: None,
        etag: Some("abc".to_string()),
    };
    assert_eq!(entry.size, 11);
    let meta = BlobMetadata { size: entry.size, etag: entry.etag.clone(), last_modified: None };
    assert_eq!(meta.etag.as_deref(), Some("abc"));
}
