use envio::envs::EnvMap;
use envio::error::CryptoError;
use envio::error::StoreError;
use envio::lifecycle::Lifecycle;
use envio::profile::get_profile;
use envio::profile::Profile;
use envio::store::Store;

fn envs(pairs: &[(&str, &str)]) -> EnvMap {
    let mut map = EnvMap::new();
    for (key, value) in pairs {
        assert!(map.insert(key.to_string(), value.to_string()));
    }
    map
}

fn pairs(map: &EnvMap) -> Vec<(String, String)> {
    map.vars().into_iter().map(|v| (v.key, v.value)).collect()
}

#[test]
fn work_profile_is_created_changed_pushed_and_read_back() {
    let mut store = Store::new();
    assert_eq!(store.create("work".to_string(), &EnvMap::new(), "correct-horse-battery"), Ok(()));
    let mut profile = Profile::new("work".to_string(), EnvMap::new());
    profile.add_env("DB_URL".to_string(), "postgres://localhost".to_string());
    profile.add_env("API_KEY".to_string(), "abc123".to_string());
    assert_eq!(profile.push_changes(&mut store, "correct-horse-battery"), Ok(()));

    let bytes = store.read_raw("work").unwrap().to_bytes();
    let mut elsewhere = Store::new();
    assert_eq!(elsewhere.import_raw("work".to_string(), &bytes), Ok(()));
    let read = get_profile(&elsewhere, "work", "correct-horse-battery").unwrap();
    assert_eq!(read.name, "work");
    assert_eq!(pairs(&read.envs), vec![
        ("DB_URL".to_string(), "postgres://localhost".to_string()),
        ("API_KEY".to_string(), "abc123".to_string()),
    ]);
    assert!(get_profile(&elsewhere, "work", "wrong-pass").is_none());
    assert!(get_profile(&elsewhere, "home", "correct-horse-battery").is_none());
}

#[test]
fn work_profile_is_loaded_and_unloaded() {
    let profile = Profile::new(
        "work".to_string(),
        envs(&[("DB_URL", "postgres://localhost"), ("API_KEY", "abc123")]),
    );
    let mut manager = Lifecycle::new(envs(&[("DB_URL", "old")]));
    manager.load(&profile);
    assert_eq!(manager.env().get("DB_URL").map(|s| s.as_str()), Some("postgres://localhost"));
    assert_eq!(manager.env().get("API_KEY").map(|s| s.as_str()), Some("abc123"));
    manager.unload(&profile);
    assert_eq!(manager.env().get("DB_URL").map(|s| s.as_str()), Some("old"));
    assert!(!manager.env().contains_key("API_KEY"));
    assert_eq!(pairs(manager.env()), vec![("DB_URL".to_string(), "old".to_string())]);
}

#[test]
fn successive_pushes_use_new_salts_and_nonces() {
    let mut store = Store::new();
    let profile = Profile::new("work".to_string(), envs(&[("API_KEY", "abc123")]));
    assert_eq!(profile.push_changes(&mut store, "pass"), Ok(()));
    let first = store.read_raw("work").unwrap();
    assert_eq!(profile.push_changes(&mut store, "pass"), Ok(()));
    let second = store.read_raw("work").unwrap();
    assert_ne!(first.salt, second.salt);
    assert_ne!(first.nonce, second.nonce);
    assert_ne!(first.ciphertext, second.ciphertext);
    assert_eq!(first.ciphertext.len(), second.ciphertext.len());
}

#[test]
fn push_changes_overwrites_the_whole_profile() {
    let mut store = Store::new();
    store.create("work".to_string(), &envs(&[("OLD", "1"), ("KEEP", "2")]), "pass").unwrap();
    let mut profile = get_profile(&store, "work", "pass").unwrap();
    profile.remove_env("OLD");
    profile.edit_env("KEEP".to_string(), "3".to_string());
    assert_eq!(pairs(&get_profile(&store, "work", "pass").unwrap().envs).len(), 2);
    assert_eq!(profile.push_changes(&mut store, "pass"), Ok(()));
    assert_eq!(pairs(&get_profile(&store, "work", "pass").unwrap().envs), vec![
        ("KEEP".to_string(), "3".to_string()),
    ]);
}

#[test]
fn a_profile_that_is_too_large_is_not_stored() {
    let mut store = Store::new();
    let large = "x".repeat(envio::cipher::MAX_PLAINTEXT);
    let profile = Profile::new("big".to_string(), envs(&[("BLOB", &large)]));
    assert_eq!(
        profile.push_changes(&mut store, "pass"),
        Err(StoreError::Crypto(CryptoError::MessageTooLarge))
    );
    assert!(!store.contains("big"));
    assert_eq!(
        store.create("big".to_string(), &profile.envs, "pass"),
        Err(StoreError::Crypto(CryptoError::MessageTooLarge))
    );
    assert!(store.list().is_empty());
}
