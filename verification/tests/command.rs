use envio::command::apply_additions;
use envio::command::apply_removals;
use envio::command::apply_updates;
use envio::command::import_from;
use envio::command::parse_assignment;
use envio::command::Command;
use envio::command::CommandArgs;
use envio::command::CommandKind;
use envio::command::Notice;
use envio::command::Outcome;
use envio::command::Pending;
use envio::command::Prompt;
use envio::command::Step;
use envio::envs::EnvMap;
use envio::error::StoreError;
use envio::lifecycle::Lifecycle;
use envio::profile::get_profile;
use envio::profile::Profile;
use envio::store::Store;

fn args(list: &[&str]) -> CommandArgs {
    CommandArgs { args: list.iter().map(|s| s.to_string()).collect() }
}

fn strings(list: &[&str]) -> Vec<String> {
    list.iter().map(|s| s.to_string()).collect()
}

fn envs(pairs: &[(&str, &str)]) -> EnvMap {
    let mut map = EnvMap::new();
    for (key, value) in pairs {
        assert!(map.insert(key.to_string(), value.to_string()));
    }
    map
}

fn pairs(map: &EnvMap) -> Vec<(String, String)> {
    map.vars().into_iter().map(|v| (v.key, v.value)).collect()
}

fn failed(step: &Step) -> Option<Notice> {
    match step {
        Step::Done(Outcome::Failed(notice)) => Some(*notice),
        _ => None,
    }
}

fn store_with(name: &str, map: &EnvMap, key: &str) -> Store {
    let mut store = Store::new();
    store.create(name.to_string(), map, key).unwrap();
    store
}

#[test]
fn assignments_split_at_the_first_equals_sign() {
    assert_eq!(parse_assignment("A=b"), Some(("A".to_string(), "b".to_string())));
    assert_eq!(parse_assignment("A="), Some(("A".to_string(), "".to_string())));
    assert_eq!(parse_assignment("A=b=c"), Some(("A".to_string(), "b".to_string())));
    assert_eq!(parse_assignment("A=="), Some(("A".to_string(), "".to_string())));
    assert_eq!(
        parse_assignment("DB_URL=postgres://localhost"),
        Some(("DB_URL".to_string(), "postgres://localhost".to_string()))
    );
    assert_eq!(parse_assignment("ключ=значение"), Some(("ключ".to_string(), "значение".to_string())));
    assert_eq!(parse_assignment("A"), None);
    assert_eq!(parse_assignment(""), None);
    assert_eq!(parse_assignment("=b"), None);
    assert_eq!(parse_assignment("="), None);
}

#[test]
fn additions_take_new_names_only() {
    let mut profile = Profile::new("p".to_string(), envs(&[("A", "1")]));
    assert_eq!(apply_additions(&mut profile, &strings(&["p", "B=2", "C=3"])), Ok(()));
    assert_eq!(pairs(&profile.envs), vec![
        ("A".to_string(), "1".to_string()),
        ("B".to_string(), "2".to_string()),
        ("C".to_string(), "3".to_string()),
    ]);
    assert_eq!(apply_additions(&mut profile, &strings(&["p", "D=4", "A=9", "G=7"])), Err(Notice::KeyExists));
    assert_eq!(profile.envs.get("D").map(|s| s.as_str()), Some("4"));
    assert!(!profile.envs.contains_key("G"));
    assert_eq!(apply_additions(&mut profile, &strings(&["p", "E"])), Err(Notice::CannotParse));
    assert_eq!(apply_additions(&mut profile, &strings(&["p", "F=1", "F=2"])), Err(Notice::KeyExists));
    assert_eq!(profile.envs.get("F").map(|s| s.as_str()), Some("1"));
    assert_eq!(apply_additions(&mut profile, &strings(&["p"])), Ok(()));
    assert_eq!(profile.envs.get("A").map(|s| s.as_str()), Some("1"));
    assert_eq!(profile.envs.len(), 5);
}

#[test]
fn updates_take_set_names_only() {
    let mut profile = Profile::new("p".to_string(), envs(&[("A", "1"), ("B", "2")]));
    assert_eq!(apply_updates(&mut profile, &strings(&["p", "B=two", "A=one"])), Ok(()));
    assert_eq!(pairs(&profile.envs), vec![
        ("A".to_string(), "one".to_string()),
        ("B".to_string(), "two".to_string()),
    ]);
    assert_eq!(apply_updates(&mut profile, &strings(&["p", "A=uno", "C=3", "B=dos"])), Err(Notice::KeyMissing));
    assert_eq!(apply_updates(&mut profile, &strings(&["p", "A"])), Err(Notice::CannotParse));
    assert_eq!(pairs(&profile.envs), vec![
        ("A".to_string(), "uno".to_string()),
        ("B".to_string(), "two".to_string()),
    ]);
    assert_eq!(profile.name, "p");
}

#[test]
fn removals_pass_over_names_that_are_not_set() {
    let mut profile = Profile::new("p".to_string(), envs(&[("A", "1"), ("B", "2"), ("C", "3")]));
    apply_removals(&mut profile, &strings(&["p", "B", "X", "A"]));
    assert_eq!(pairs(&profile.envs), vec![("C".to_string(), "3".to_string())]);
    apply_removals(&mut profile, &strings(&["C"]));
    assert_eq!(profile.envs.len(), 1);
}

#[test]
fn profile_methods_change_the_variables() {
    let mut profile = Profile::new("p".to_string(), EnvMap::new());
    profile.add_env("A".to_string(), "1".to_string());
    profile.add_env("".to_string(), "ignored".to_string());
    profile.edit_env("A".to_string(), "2".to_string());
    profile.edit_env("B".to_string(), "not set".to_string());
    assert_eq!(pairs(&profile.envs), vec![("A".to_string(), "2".to_string())]);
    profile.remove_env("B");
    profile.remove_env("A");
    assert!(profile.envs.is_empty());
    assert!(profile.list_envs().is_empty());
    assert_eq!(profile.export_envs(), "");
}

#[test]
fn commands_without_arguments_fail() {
    let mut store = Store::new();
    let commands = [
        Command::Create(args(&[])),
        Command::Add(args(&[])),
        Command::Load(args(&[])),
        Command::Unload(args(&[])),
        Command::Remove(args(&[])),
        Command::List(args(&[])),
        Command::Update(args(&[])),
        Command::Export(args(&[])),
        Command::Import(args(&[])),
    ];
    for command in commands.iter() {
        assert_eq!(failed(&command.run(&mut store)), Some(Notice::InvalidArgumentCount));
    }
    assert_eq!(failed(&Command::Add(args(&["p"])).run(&mut store)), Some(Notice::InvalidArgumentCount));
    assert_eq!(failed(&Command::Update(args(&["p"])).run(&mut store)), Some(Notice::InvalidArgumentCount));
    assert_eq!(Notice::InvalidArgumentCount.text(), "Invalid number of arguments");
}

#[test]
fn commands_are_of_their_kind() {
    let command = Command::Export(args(&["p", "out.env"]));
    assert_eq!(command.kind(), CommandKind::Export);
    assert_eq!(command.args(), &strings(&["p", "out.env"]));
    let copy = command.duplicate();
    assert_eq!(copy.kind(), CommandKind::Export);
    assert_eq!(copy.args(), command.args());
}

#[test]
fn version_knows_one_argument() {
    let mut store = Store::new();
    assert!(matches!(
        Command::Version(args(&[])).run(&mut store),
        Step::Done(Outcome::Version { verbose: false })
    ));
    assert!(matches!(
        Command::Version(args(&["verbose"])).run(&mut store),
        Step::Done(Outcome::Version { verbose: true })
    ));
    assert_eq!(failed(&Command::Version(args(&["loud"])).run(&mut store)), Some(Notice::InvalidArgument));
}

#[test]
fn import_tells_a_url_from_a_path() {
    let mut store = Store::new();
    match Command::Import(args(&["https://example.com/work.env", "work"])).run(&mut store) {
        Step::Done(Outcome::Fetch { url, name }) => {
            assert_eq!(url, "https://example.com/work.env");
            assert_eq!(name, "work");
        }
        _ => panic!("a fetch was expected"),
    }
    match Command::Import(args(&["./profiles/work.env", "work"])).run(&mut store) {
        Step::Done(Outcome::ReadFile { path, name }) => {
            assert_eq!(path, "./profiles/work.env");
            assert_eq!(name, "work");
        }
        _ => panic!("a file was expected"),
    }
    assert!(matches!(
        import_from(true, &"a".to_string(), &"b".to_string()),
        Outcome::Fetch { .. }
    ));
    assert!(matches!(
        import_from(false, &"a".to_string(), &"b".to_string()),
        Outcome::ReadFile { .. }
    ));
}

#[test]
fn import_wants_a_new_name() {
    let mut store = Store::new();
    store.write_raw(
        "work".to_string(),
        envio::container::Container { version: 1, salt: vec![0; 16], nonce: vec![0; 12], ciphertext: vec![0; 16] },
    );
    assert_eq!(
        failed(&Command::Import(args(&["https://example.com/x"])).run(&mut store)),
        Some(Notice::MissingProfileName)
    );
    assert_eq!(
        failed(&Command::Import(args(&["https://example.com/x", "work"])).run(&mut store)),
        Some(Notice::ProfileExists)
    );
}

#[test]
fn list_profiles_needs_no_passphrase() {
    let mut store = Store::new();
    let c = envio::container::Container { version: 1, salt: vec![0; 16], nonce: vec![0; 12], ciphertext: vec![0; 16] };
    store.write_raw("work".to_string(), c.duplicate());
    store.write_raw("home".to_string(), c);
    match Command::List(args(&["profiles"])).run(&mut store) {
        Step::Done(Outcome::Profiles(names)) => assert_eq!(names, strings(&["work", "home"])),
        _ => panic!("the names were expected"),
    }
    assert!(matches!(
        Command::List(args(&["work"])).run(&mut store),
        Step::Ask(Prompt::Key, Pending::Open { .. })
    ));
}

#[test]
fn remove_with_one_argument_deletes_the_profile() {
    let mut store = Store::new();
    let c = envio::container::Container { version: 1, salt: vec![0; 16], nonce: vec![0; 12], ciphertext: vec![0; 16] };
    store.write_raw("work".to_string(), c);
    assert!(matches!(Command::Remove(args(&["work"])).run(&mut store), Step::Done(Outcome::Deleted)));
    assert!(!store.contains("work"));
    assert!(matches!(
        Command::Remove(args(&["work"])).run(&mut store),
        Step::Done(Outcome::DeleteFailed(StoreError::NotFound))
    ));
    assert!(matches!(
        Command::Remove(args(&["work", "A"])).run(&mut store),
        Step::Ask(Prompt::Key, Pending::Open { .. })
    ));
}

#[test]
fn create_asks_for_a_new_key_and_stores_an_empty_profile() {
    let mut store = Store::new();
    let mut manager = Lifecycle::new(EnvMap::new());
    let pending = match Command::Create(args(&["work"])).run(&mut store) {
        Step::Ask(Prompt::NewKey, pending) => pending,
        _ => panic!("a prompt was expected"),
    };
    assert!(!store.contains("work"));
    assert!(matches!(
        pending.clone().resume("correct-horse-battery", &mut store, &mut manager),
        Step::Done(Outcome::Created)
    ));
    assert!(get_profile(&store, "work", "correct-horse-battery").unwrap().envs.is_empty());
    assert!(matches!(
        pending.resume("other", &mut store, &mut manager),
        Step::Done(Outcome::CreateFailed(StoreError::AlreadyExists))
    ));
}

#[test]
fn add_opens_changes_and_saves() {
    let mut store = store_with("work", &envs(&[("A", "1")]), "key-one");
    let mut manager = Lifecycle::new(EnvMap::new());
    let open = match Command::Add(args(&["work", "B=2"])).run(&mut store) {
        Step::Ask(Prompt::Key, pending) => pending,
        _ => panic!("a prompt was expected"),
    };
    let save = match open.resume("key-one", &mut store, &mut manager) {
        Step::Ask(Prompt::Key, pending) => pending,
        _ => panic!("a second prompt was expected"),
    };
    assert!(matches!(save.resume("key-two", &mut store, &mut manager), Step::Done(Outcome::Saved)));
    assert!(get_profile(&store, "work", "key-one").is_none());
    let profile = get_profile(&store, "work", "key-two").unwrap();
    assert_eq!(pairs(&profile.envs), vec![
        ("A".to_string(), "1".to_string()),
        ("B".to_string(), "2".to_string()),
    ]);
}

#[test]
fn a_wrong_key_and_a_missing_profile_look_the_same() {
    let mut store = store_with("work", &EnvMap::new(), "key-one");
    let mut manager = Lifecycle::new(EnvMap::new());
    let wrong = Pending::Open { command: Command::Load(args(&["work"])) };
    assert!(matches!(wrong.resume("key-two", &mut store, &mut manager), Step::Done(Outcome::Unavailable)));
    let missing = Pending::Open { command: Command::Load(args(&["home"])) };
    assert!(matches!(missing.resume("key-one", &mut store, &mut manager), Step::Done(Outcome::Unavailable)));
}

#[test]
fn add_and_update_report_what_cannot_be_applied() {
    let mut store = store_with("work", &envs(&[("A", "1")]), "k");
    let mut manager = Lifecycle::new(EnvMap::new());
    let step = Pending::Open { command: Command::Add(args(&["work", "A=2"])) }.resume("k", &mut store, &mut manager);
    assert_eq!(failed(&step), Some(Notice::KeyExists));
    let step = Pending::Open { command: Command::Update(args(&["work", "B=2"])) }.resume("k", &mut store, &mut manager);
    assert_eq!(failed(&step), Some(Notice::KeyMissing));
    let step = Pending::Open { command: Command::Update(args(&["work", "A"])) }.resume("k", &mut store, &mut manager);
    assert_eq!(failed(&step), Some(Notice::CannotParse));
    assert_eq!(pairs(&get_profile(&store, "work", "k").unwrap().envs), vec![("A".to_string(), "1".to_string())]);
}

#[test]
fn list_and_export_hand_out_the_variables() {
    let map = envs(&[("DB_URL", "postgres://localhost"), ("API_KEY", "abc123")]);
    let mut store = store_with("work", &map, "k");
    let mut manager = Lifecycle::new(EnvMap::new());
    match (Pending::Open { command: Command::List(args(&["work"])) }).resume("k", &mut store, &mut manager) {
        Step::Done(Outcome::Variables(list)) => {
            let list: Vec<(String, String)> = list.into_iter().map(|v| (v.key, v.value)).collect();
            assert_eq!(list, pairs(&map));
        }
        _ => panic!("the variables were expected"),
    }
    match (Pending::Open { command: Command::Export(args(&["work"])) }).resume("k", &mut store, &mut manager) {
        Step::Done(Outcome::Export { path, text }) => {
            assert_eq!(path, ".env");
            assert_eq!(text, "DB_URL=postgres://localhost\nAPI_KEY=abc123\n");
        }
        _ => panic!("an export was expected"),
    }
    match (Pending::Open { command: Command::Export(args(&["work", "out.txt"])) }).resume("k", &mut store, &mut manager) {
        Step::Done(Outcome::Export { path, .. }) => assert_eq!(path, "out.txt"),
        _ => panic!("an export was expected"),
    }
}

#[test]
fn load_and_unload_commands_change_the_environment() {
    let mut store = store_with("work", &envs(&[("API_KEY", "abc123")]), "k");
    let mut manager = Lifecycle::new(envs(&[("HOME", "/root")]));
    let step = Pending::Open { command: Command::Load(args(&["work"])) }.resume("k", &mut store, &mut manager);
    assert!(matches!(step, Step::Done(Outcome::Loaded)));
    assert_eq!(manager.env().get("API_KEY").map(|s| s.as_str()), Some("abc123"));
    let step = Pending::Open { command: Command::Unload(args(&["work"])) }.resume("k", &mut store, &mut manager);
    assert!(matches!(step, Step::Done(Outcome::Unloaded)));
    assert_eq!(pairs(manager.env()), vec![("HOME".to_string(), "/root".to_string())]);
}

#[test]
fn remove_with_names_takes_variables_out() {
    let mut store = store_with("work", &envs(&[("A", "1"), ("B", "2")]), "k");
    let mut manager = Lifecycle::new(EnvMap::new());
    let save = match (Pending::Open { command: Command::Remove(args(&["work", "A", "Z"])) }).resume("k", &mut store, &mut manager) {
        Step::Ask(Prompt::Key, pending) => pending,
        _ => panic!("a prompt was expected"),
    };
    assert!(matches!(save.resume("k", &mut store, &mut manager), Step::Done(Outcome::Saved)));
    assert_eq!(pairs(&get_profile(&store, "work", "k").unwrap().envs), vec![("B".to_string(), "2".to_string())]);
}

#[test]
fn notices_have_their_words() {
    assert_eq!(Notice::CannotParse.text(), "Can not parse arguments");
    assert_eq!(
        Notice::KeyExists.text(),
        "Key already exists in profile use the update command to update the value"
    );
    assert_eq!(
        Notice::KeyMissing.text(),
        "Key does not exists in profile use the `add` command to add the key"
    );
    assert_eq!(Notice::ProfileExists.text(), "Profile already exists");
    assert_eq!(Notice::MissingProfileName.text(), "Please provide a profile name");
    assert_eq!(Notice::InvalidArgument.text(), "Invalid argument");
}

#[test]
fn a_save_that_fails_leaves_the_store_as_it_was() {
    let mut store = Store::new();
    let mut manager = Lifecycle::new(EnvMap::new());
    let large = "x".repeat(envio::cipher::MAX_PLAINTEXT);
    let profile = Profile::new("big".to_string(), envs(&[("BLOB", &large)]));
    let step = Pending::Save { profile }.resume("k", &mut store, &mut manager);
    assert!(matches!(
        step,
        Step::Done(Outcome::SaveFailed(StoreError::Crypto(envio::error::CryptoError::MessageTooLarge)))
    ));
    assert!(store.list().is_empty());
}

#[test]
fn an_update_of_a_missing_profile_asks_and_then_gives_up() {
    let mut store = Store::new();
    let mut manager = Lifecycle::new(EnvMap::new());
    let pending = match Command::Update(args(&["ghost", "A=1"])).run(&mut store) {
        Step::Ask(Prompt::Key, pending) => pending,
        _ => panic!("a prompt was expected"),
    };
    assert!(matches!(pending.resume("k", &mut store, &mut manager), Step::Done(Outcome::Unavailable)));
    assert!(store.list().is_empty());
}
