use mls_client::persistent_key_store::PersistentKeyStore;
use mls_client::persistent_key_store::PersistentKeyStoreError;

fn sample_pairs() -> Vec<(Vec<u8>, Vec<u8>)> {
    vec![
        (vec![0u8, 1, 2, 255, 254], vec![9u8, 8, 7]),
        (b"alpha".to_vec(), vec![]),
        (vec![], b"value-for-empty-key".to_vec()),
        (b"credential/1".to_vec(), vec![42u8; 64]),
    ]
}

#[test]
fn store_and_read_binary_pairs() {
    let mut ks = PersistentKeyStore::new();
    for (k, v) in &sample_pairs() {
        ks.store(k, v).unwrap();
    }
    for (k, v) in &sample_pairs() {
        assert_eq!(ks.read(k), Some(v.clone()));
    }
    assert_eq!(ks.read(b"absent"), None);
}

#[test]
fn save_load_roundtrip_plain() {
    let mut ks = PersistentKeyStore::new();
    for (k, v) in &sample_pairs() {
        ks.store(k, v).unwrap();
    }
    let bytes = ks.save(None).unwrap();
    // the on-disk form is a text document with base64-encoded entries
    let text = String::from_utf8(bytes.clone()).unwrap();
    assert!(text.starts_with("{\"values\":{"));
    assert!(text.contains(&base64::encode(&[0u8, 1, 2, 255, 254])));
    let mut fresh = PersistentKeyStore::new();
    fresh.load(&bytes, None).unwrap();
    for (k, v) in &sample_pairs() {
        assert_eq!(fresh.read(k), Some(v.clone()));
    }
}

#[test]
fn save_load_roundtrip_with_password() {
    let mut ks = PersistentKeyStore::new();
    for (k, v) in &sample_pairs() {
        ks.store(k, v).unwrap();
    }
    let bytes = ks.save(Some(b"hunter2")).unwrap();
    // ciphertext must not expose the encoded entries
    let blob = String::from_utf8_lossy(&bytes).into_owned();
    assert!(!blob.contains(&base64::encode(b"alpha")));
    let mut fresh = PersistentKeyStore::new();
    fresh.load(&bytes, Some(b"hunter2")).unwrap();
    for (k, v) in &sample_pairs() {
        assert_eq!(fresh.read(k), Some(v.clone()));
    }
}

#[test]
fn wrong_password_fails_and_leaves_store_untouched() {
    let mut ks = PersistentKeyStore::new();
    ks.store(b"secret", b"payload").unwrap();
    let bytes = ks.save(Some(b"right-password")).unwrap();

    let mut target = PersistentKeyStore::new();
    target.store(b"existing", b"entry").unwrap();
    let r = target.load(&bytes, Some(b"wrong-password"));
    assert!(r.is_err());
    // nothing was merged, nothing was lost
    assert_eq!(target.read(b"secret"), None);
    assert_eq!(target.read(b"existing"), Some(b"entry".to_vec()));

    // a password-protected blob cannot be read as a plain document either
    let mut plain = PersistentKeyStore::new();
    assert!(plain.load(&bytes, None).is_err());
    assert_eq!(plain.read(b"secret"), None);
}

#[test]
fn overwrite_keeps_one_entry_with_latest_value() {
    let mut ks = PersistentKeyStore::new();
    ks.store(b"key", b"first").unwrap();
    ks.store(b"key", b"second").unwrap();
    ks.store(b"key", b"third").unwrap();
    assert_eq!(ks.read(b"key"), Some(b"third".to_vec()));
    let text = String::from_utf8(ks.save(None).unwrap()).unwrap();
    let encoded_key = base64::encode(b"key");
    let needle = format!("\"{}\":", encoded_key);
    assert_eq!(text.matches(&needle).count(), 1);
    // store size is one entry, not three
    assert_eq!(text.matches("\":\"").count(), 1);
}

#[test]
fn delete_is_idempotent_and_absent_delete_is_no_error() {
    let mut ks = PersistentKeyStore::new();
    assert!(ks.delete(b"never-stored").is_ok());
    ks.store(b"a", b"1").unwrap();
    ks.store(b"b", b"2").unwrap();
    ks.delete(b"a").unwrap();
    assert_eq!(ks.read(b"a"), None);
    ks.delete(b"a").unwrap();
    assert_eq!(ks.read(b"a"), None);
    assert_eq!(ks.read(b"b"), Some(b"2".to_vec()));
}

#[test]
fn empty_store_roundtrip() {
    let ks = PersistentKeyStore::new();
    let bytes = ks.save(None).unwrap();
    assert_eq!(String::from_utf8(bytes.clone()).unwrap(), "{\"values\":{}}");
    let mut fresh = PersistentKeyStore::new();
    fresh.load(&bytes, None).unwrap();
    assert_eq!(fresh.read(b"anything"), None);
}

#[test]
fn corrupt_document_is_rejected_without_partial_load() {
    let mut ks = PersistentKeyStore::new();
    ks.store(b"k", b"v").unwrap();
    let mut bytes = ks.save(None).unwrap();
    bytes.pop();
    let mut fresh = PersistentKeyStore::new();
    assert!(fresh.load(&bytes, None).is_err());
    assert_eq!(fresh.read(b"k"), None);
}

#[test]
fn get_file_path_derives_name_from_identity_label() {
    let p = PersistentKeyStore::get_file_path(&String::from("alice"));
    assert_eq!(p, "openmls_cli_alice_ks.json");
}

#[test]
fn serialization_error_message() {
    let e = PersistentKeyStoreError::SerializationError;
    assert_eq!(e, PersistentKeyStoreError::SerializationError);
    assert_eq!(e.message(), "Error serializing value.");
}
