use envio::container::decode;
use envio::container::encode_with;
use envio::container::Container;
use envio::envs::EnvMap;
use envio::error::FormatError;
use envio::error::StoreError;
use envio::store::Store;

fn envs(pairs: &[(&str, &str)]) -> EnvMap {
    let mut map = EnvMap::new();
    for (key, value) in pairs {
        assert!(map.insert(key.to_string(), value.to_string()));
    }
    map
}

fn pairs(map: &EnvMap) -> Vec<(String, String)> {
    map.vars().into_iter().map(|v| (v.key, v.value)).collect()
}

fn container(tag: u8) -> Container {
    Container { version: 1, salt: vec![tag; 16], nonce: vec![tag; 12], ciphertext: vec![tag; 24] }
}

#[test]
fn a_new_store_is_empty() {
    let store = Store::new();
    assert!(store.list().is_empty());
    assert!(!store.contains("work"));
    assert_eq!(store.read_raw("work").err(), Some(StoreError::NotFound));
}

#[test]
fn write_raw_then_read_raw() {
    let mut store = Store::new();
    store.write_raw("work".to_string(), container(1));
    store.write_raw("home".to_string(), container(2));
    assert!(store.contains("work"));
    assert!(store.contains("home"));
    assert!(!store.contains("Work"));
    assert_eq!(store.list(), vec!["work".to_string(), "home".to_string()]);
    assert_eq!(store.read_raw("work").unwrap().to_bytes(), container(1).to_bytes());
    assert_eq!(store.read_raw("home").unwrap().to_bytes(), container(2).to_bytes());
}

#[test]
fn write_raw_replaces_what_was_stored() {
    let mut store = Store::new();
    store.write_raw("work".to_string(), container(1));
    store.write_raw("home".to_string(), container(2));
    store.write_raw("work".to_string(), container(3));
    assert_eq!(store.list(), vec!["work".to_string(), "home".to_string()]);
    assert_eq!(store.read_raw("work").unwrap().to_bytes(), container(3).to_bytes());
    assert_eq!(store.read_raw("home").unwrap().to_bytes(), container(2).to_bytes());
}

#[test]
fn an_interrupted_write_leaves_the_old_container() {
    let mut store = Store::new();
    store.write_raw("work".to_string(), container(1));
    store.stage("work".to_string(), container(2));
    assert_eq!(store.read_raw("work").unwrap().to_bytes(), container(1).to_bytes());
    store.stage("new".to_string(), container(4));
    assert!(!store.contains("new"));
    store.discard();
    assert_eq!(store.read_raw("work").unwrap().to_bytes(), container(1).to_bytes());
    assert_eq!(store.list(), vec!["work".to_string()]);
    assert!(!store.commit());
    assert_eq!(store.read_raw("work").unwrap().to_bytes(), container(1).to_bytes());
}

#[test]
fn a_committed_write_shows_the_new_container() {
    let mut store = Store::new();
    store.write_raw("work".to_string(), container(1));
    store.stage("work".to_string(), container(2));
    assert!(store.commit());
    assert_eq!(store.read_raw("work").unwrap().to_bytes(), container(2).to_bytes());
    assert!(!store.commit());
    assert_eq!(store.list(), vec!["work".to_string()]);
}

#[test]
fn delete_removes_only_the_named_profile() {
    let mut store = Store::new();
    store.write_raw("work".to_string(), container(1));
    store.write_raw("home".to_string(), container(2));
    store.write_raw("lab".to_string(), container(3));
    assert_eq!(store.delete("home"), Ok(()));
    assert_eq!(store.list(), vec!["work".to_string(), "lab".to_string()]);
    assert_eq!(store.read_raw("home").err(), Some(StoreError::NotFound));
    assert_eq!(store.delete("home"), Err(StoreError::NotFound));
    assert_eq!(store.read_raw("lab").unwrap().to_bytes(), container(3).to_bytes());
}

#[test]
fn import_raw_stores_the_bytes_as_they_are() {
    let map = envs(&[("A", "1")]);
    let bytes = encode_with(&map, "pass", &[1u8; 16], &[2u8; 12]).unwrap().to_bytes();
    let mut store = Store::new();
    assert_eq!(store.import_raw("copy".to_string(), &bytes), Ok(()));
    assert_eq!(store.read_raw("copy").unwrap().to_bytes(), bytes);
    let back = decode(&store.read_raw("copy").unwrap(), "pass").unwrap();
    assert_eq!(pairs(&back), pairs(&map));
}

#[test]
fn import_raw_refuses_a_taken_name_and_bad_bytes() {
    let mut store = Store::new();
    store.write_raw("work".to_string(), container(1));
    let other = container(2).to_bytes();
    assert_eq!(store.import_raw("work".to_string(), &other), Err(StoreError::AlreadyExists));
    assert_eq!(store.import_raw("work".to_string(), &[]), Err(StoreError::AlreadyExists));
    assert_eq!(store.read_raw("work").unwrap().to_bytes(), container(1).to_bytes());
    assert_eq!(
        store.import_raw("short".to_string(), &other[..40]),
        Err(StoreError::Format(FormatError::Truncated))
    );
    let mut versioned = other.clone();
    versioned[0] = 3;
    assert_eq!(
        store.import_raw("v3".to_string(), &versioned),
        Err(StoreError::Format(FormatError::UnsupportedVersion))
    );
    assert_eq!(store.list(), vec!["work".to_string()]);
}

#[test]
fn create_stores_a_profile_that_the_passphrase_opens() {
    let mut store = Store::new();
    let map = envs(&[("TOKEN", "t0")]);
    assert_eq!(store.create("seeded".to_string(), &map, "correct-horse-battery"), Ok(()));
    let back = decode(&store.read_raw("seeded").unwrap(), "correct-horse-battery").unwrap();
    assert_eq!(pairs(&back), pairs(&map));
}

#[test]
fn create_on_an_existing_name_changes_nothing() {
    let mut store = Store::new();
    store.write_raw("work".to_string(), container(1));
    let before = store.read_raw("work").unwrap().to_bytes();
    assert_eq!(
        store.create("work".to_string(), &EnvMap::new(), "another-passphrase"),
        Err(StoreError::AlreadyExists)
    );
    assert_eq!(store.read_raw("work").unwrap().to_bytes(), before);
    assert_eq!(store.list(), vec!["work".to_string()]);
}
