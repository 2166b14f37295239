use passcualito::model::Entry;
use passcualito::storage::Storage;
use passcualito::StoreError;

fn entry(name: &str, password: &str, info: &str) -> Entry {
    Entry { name: name.to_string(), password: password.to_string(), info: info.to_string() }
}

#[test]
fn test_round_trip_single_entry() {
    let store = Storage { entries: vec![entry("github", "x", "")] };
    let bytes = store.save_store("correcthorse");

    let loaded = Storage::load_store(&bytes, "correcthorse").unwrap();
    assert_eq!(loaded.entries.len(), 1);
    assert_eq!(loaded.entries[0], entry("github", "x", ""));

    let wrong = Storage::load_store(&bytes, "wrongpass");
    assert_eq!(wrong.unwrap_err(), StoreError::AuthenticationFailure);
}

#[test]
fn test_round_trip_empty_collection() {
    let store = Storage { entries: Vec::new() };
    let bytes = store.save_store("correcthorse");
    let loaded = Storage::load_store(&bytes, "correcthorse").unwrap();
    assert!(loaded.entries.is_empty());
}

#[test]
fn test_round_trip_sorts_by_name() {
    let store = Storage {
        entries: vec![
            entry("zebra", "p3", "third"),
            entry("apple", "p1", "first"),
            entry("mango", "p2", "second"),
        ],
    };
    let bytes = store.save_store("correcthorse");
    let loaded = Storage::load_store(&bytes, "correcthorse").unwrap();
    assert_eq!(
        loaded.entries,
        vec![
            entry("apple", "p1", "first"),
            entry("mango", "p2", "second"),
            entry("zebra", "p3", "third"),
        ]
    );
}

#[test]
fn test_round_trip_unicode_fields() {
    let store = Storage { entries: vec![entry("caf\u{e9}", "p\u{e4}ss", "\u{2713} notes")] };
    let bytes = store.save_store("correcthorse");
    let loaded = Storage::load_store(&bytes, "correcthorse").unwrap();
    assert_eq!(loaded.entries, vec![entry("caf\u{e9}", "p\u{e4}ss", "\u{2713} notes")]);
}

#[test]
fn test_tamper_detection() {
    let store = Storage { entries: vec![entry("github", "x", "")] };
    let mut bytes = store.save_store("correcthorse");

    let last = bytes.len() - 1;
    bytes[last] ^= 0x01;
    let r = Storage::load_store(&bytes, "correcthorse");
    assert_eq!(r.unwrap_err(), StoreError::AuthenticationFailure);

    bytes[last] ^= 0x01;
    bytes[28] ^= 0x80;
    let r = Storage::load_store(&bytes, "correcthorse");
    assert_eq!(r.unwrap_err(), StoreError::AuthenticationFailure);
}

#[test]
fn test_wrong_password_fails_authentication() {
    let store = Storage { entries: vec![entry("db", "secret", "prod")] };
    let bytes = store.save_store("correcthorse");
    let r = Storage::load_store(&bytes, "correcthorse2");
    assert_eq!(r.unwrap_err(), StoreError::AuthenticationFailure);
}

#[test]
fn test_salt_and_nonce_differ_between_saves() {
    let store = Storage { entries: vec![entry("github", "x", "")] };
    let first = store.save_store("correcthorse");
    let second = store.save_store("correcthorse");
    assert_ne!(&first[0..16], &second[0..16]);
    assert_ne!(&first[16..28], &second[16..28]);
}

#[test]
fn test_truncated_file() {
    let r = Storage::load_store(&vec![0u8; 10], "correcthorse");
    assert_eq!(r.unwrap_err(), StoreError::TruncatedFile);

    let r = Storage::load_store(&vec![0u8; 28], "correcthorse");
    assert_eq!(r.unwrap_err(), StoreError::TruncatedFile);
}

#[test]
fn test_garbage_file_fails_authentication() {
    let r = Storage::load_store(&vec![7u8; 64], "correcthorse");
    assert_eq!(r.unwrap_err(), StoreError::AuthenticationFailure);
}

#[test]
fn test_insert_duplicate_name() {
    let mut store = Storage { entries: vec![entry("db", "one", "")] };
    let r = store.insert(entry("db", "two", ""));
    assert_eq!(r.unwrap_err(), StoreError::DuplicateName);
    assert_eq!(store.entries, vec![entry("db", "one", "")]);

    store.insert(entry("web", "three", "")).unwrap();
    assert_eq!(store.entries.len(), 2);
}

#[test]
fn test_remove_entry() {
    let mut store = Storage { entries: vec![entry("a", "1", ""), entry("b", "2", "")] };
    let gone = store.remove("a").unwrap();
    assert_eq!(gone, entry("a", "1", ""));
    assert_eq!(store.entries, vec![entry("b", "2", "")]);

    let r = store.remove("missing");
    assert_eq!(r.unwrap_err(), StoreError::NotFound);
    assert_eq!(store.entries, vec![entry("b", "2", "")]);
}

#[test]
fn test_get_entry() {
    let store = Storage { entries: vec![entry("a", "1", ""), entry("b", "2", "")] };
    assert_eq!(store.get_entry("b"), Some(&entry("b", "2", "")));
    assert_eq!(store.get_entry("B"), None);
}

#[test]
fn test_merge_internal_duplicate() {
    let mut store = Storage { entries: vec![entry("web", "w", "")] };
    let incoming = vec![entry("db", "one", ""), entry("mail", "m", ""), entry("db", "two", "")];
    let r = store.merge(incoming);
    assert_eq!(r.unwrap_err(), StoreError::InternalDuplicate("db".to_string()));
    assert_eq!(store.entries, vec![entry("web", "w", "")]);
}

#[test]
fn test_merge_cross_duplicate() {
    let mut store = Storage { entries: vec![entry("db", "old", ""), entry("web", "w", "")] };
    let incoming = vec![entry("db", "new", ""), entry("mail", "m", "")];
    let r = store.merge(incoming);
    assert_eq!(r.unwrap_err(), StoreError::CrossDuplicate("db".to_string()));
    assert_eq!(store.entries, vec![entry("db", "old", ""), entry("web", "w", "")]);
}

#[test]
fn test_merge_appends_and_sorts() {
    let mut store = Storage { entries: vec![entry("web", "w", ""), entry("api", "a", "")] };
    let incoming = vec![entry("mail", "m", ""), entry("db", "d", "")];
    store.merge(incoming).unwrap();
    assert_eq!(
        store.entries,
        vec![
            entry("api", "a", ""),
            entry("db", "d", ""),
            entry("mail", "m", ""),
            entry("web", "w", ""),
        ]
    );
}

#[test]
fn test_entry_new_defaults() {
    let e = Entry::new("github", &None, &None);
    assert_eq!(e.name, "github");
    assert_eq!(e.password.len(), 20);
    assert_eq!(e.info, "");

    let e = Entry::new("db", &Some("pw".to_string()), &Some("prod".to_string()));
    assert_eq!(e, entry("db", "pw", "prod"));
}

#[test]
fn test_entry_setters() {
    let mut e = entry("db", "old", "none");
    e.set_password("new".to_string());
    e.set_info("prod".to_string());
    assert_eq!(e, entry("db", "new", "prod"));
}

#[test]
fn test_sort_by_name() {
    let mut store = Storage {
        entries: vec![entry("b", "2", ""), entry("c", "3", ""), entry("a", "1", "")],
    };
    store.sort_by_name();
    assert_eq!(
        store.entries,
        vec![entry("a", "1", ""), entry("b", "2", ""), entry("c", "3", "")]
    );
}

#[test]
fn test_malformed_store() {
    // A file whose ciphertext authenticates but whose plaintext is not a
    // valid store payload must be rejected as malformed, not as tampered.
    let salt = vec![7u8; 16];
    let key = passcualito::crypto::derive_key("correcthorse", &salt);
    let junk = vec![0xABu8; 5];
    let (ciphertext, nonce) = passcualito::crypto::encrypt(&key, &junk);

    let mut bytes = salt.clone();
    bytes.extend_from_slice(&nonce);
    bytes.extend_from_slice(&ciphertext);

    let r = Storage::load_store(&bytes, "correcthorse");
    assert_eq!(r.unwrap_err(), StoreError::MalformedStore);
}

#[test]
fn test_store_file_layout() {
    // 16-byte salt + 12-byte nonce + payload + 16-byte tag, where the payload
    // is an 8-byte count plus, per entry, three 8-byte length prefixes and
    // the fields' UTF-8 bytes.
    let store = Storage { entries: vec![entry("github", "x", "")] };
    let bytes = store.save_store("correcthorse");
    let payload = 8 + (8 + 6) + (8 + 1) + (8 + 0);
    assert_eq!(bytes.len(), 16 + 12 + payload + 16);

    let empty = Storage { entries: Vec::new() };
    let bytes = empty.save_store("correcthorse");
    assert_eq!(bytes.len(), 16 + 12 + 8 + 16);
}
