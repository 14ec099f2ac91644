use pluely::commands::{list_provider_secret_names, set_provider_secret};
use pluely::llm::LlmError;
use pluely::secrets::{parse_secrets, provider_service, secrets_text, Reply, Secrets, Store, Turn};
use pluely::string_map::StringMap;
use std::collections::HashMap;

/// A keychain in memory that counts its calls.
struct Keychain {
    data: HashMap<(String, String), String>,
    gets: usize,
    sets: usize,
    deletes: usize,
    broken: bool,
}

impl Keychain {
    fn new() -> Keychain {
        Keychain {
            data: HashMap::new(),
            gets: 0,
            sets: 0,
            deletes: 0,
            broken: false,
        }
    }

    fn counts(&self) -> (usize, usize, usize) {
        (self.gets, self.sets, self.deletes)
    }

    fn since(&self, before: (usize, usize, usize)) -> (usize, usize, usize) {
        (
            self.gets - before.0,
            self.sets - before.1,
            self.deletes - before.2,
        )
    }

    fn failed<T>(&self) -> Reply<T> {
        Reply::Failed {
            no_entry: false,
            message: "locked".to_string(),
        }
    }

    fn get(&mut self, service: &str, account: &str) -> Reply<String> {
        self.gets += 1;
        if self.broken {
            return self.failed();
        }
        match self.data.get(&(service.to_string(), account.to_string())) {
            Some(v) => Reply::Done(v.clone()),
            None => Reply::Failed {
                no_entry: true,
                message: "No matching entry found in secure storage".to_string(),
            },
        }
    }

    fn store(&mut self, store: &Store) -> Reply<()> {
        match store {
            Store::Write {
                service,
                account,
                text,
            } => {
                self.sets += 1;
                if self.broken {
                    return self.failed();
                }
                self.data
                    .insert((service.clone(), account.clone()), text.clone());
                Reply::Done(())
            }
            Store::Remove { service, account } => {
                self.deletes += 1;
                if self.broken {
                    return self.failed();
                }
                match self.data.remove(&(service.clone(), account.clone())) {
                    Some(_) => Reply::Done(()),
                    None => Reply::Failed {
                        no_entry: true,
                        message: "No matching entry found in secure storage".to_string(),
                    },
                }
            }
        }
    }

    fn run(&mut self, secrets: &mut Secrets, turn: Turn) -> Result<StringMap<String>, LlmError> {
        let mut turn = turn;
        loop {
            turn = match turn {
                Turn::Done(result) => return result,
                Turn::Load {
                    service,
                    account,
                    loading,
                } => {
                    let reply = self.get(&service, &account);
                    secrets.loaded(loading, reply)
                }
                Turn::Store { store, storing } => {
                    let reply = self.store(&store);
                    secrets.stored(&store, storing, reply)
                }
            };
        }
    }
}

fn place(id: &str) -> (String, String) {
    (provider_service(id), "secrets".to_string())
}

fn value<'a>(map: &'a StringMap<String>, name: &str) -> Option<&'a str> {
    map.get(name).map(String::as_str)
}

#[test]
fn cache_contract() {
    let mut keychain = Keychain::new();
    let id = "cache_contract";

    let mut secrets = Secrets::new();
    let before = keychain.counts();
    let turn = secrets.set(id, "API_KEY", "k");
    keychain.run(&mut secrets, turn).unwrap();
    // set: load-on-miss (1 get) + store (1 set).
    assert_eq!(keychain.since(before), (1, 1, 0));

    // Already cached -> no further keychain ops.
    let before = keychain.counts();
    let turn = secrets.provider(id);
    let map = keychain.run(&mut secrets, turn).unwrap();
    assert_eq!(value(&map, "API_KEY"), Some("k"));
    assert_eq!(keychain.since(before), (0, 0, 0));

    // Stored JSON is the {name: value} object under (service, "secrets").
    let stored = keychain.data.get(&place(id)).cloned().unwrap();
    assert_eq!(stored, r#"{"API_KEY":"k"}"#);

    // Fresh instance: first provider() loads (1 get), second is cached.
    let mut fresh = Secrets::new();
    let before = keychain.counts();
    let turn = fresh.provider(id);
    let map = keychain.run(&mut fresh, turn).unwrap();
    assert_eq!(value(&map, "API_KEY"), Some("k"));
    assert_eq!(keychain.since(before), (1, 0, 0));
    let before = keychain.counts();
    let turn = fresh.provider(id);
    keychain.run(&mut fresh, turn).unwrap();
    assert_eq!(keychain.since(before), (0, 0, 0));
}

#[test]
fn delete_last_removes_entry() {
    let mut keychain = Keychain::new();
    let id = "delete_last";

    let mut secrets = Secrets::new();
    let turn = secrets.set(id, "ONLY", "v");
    keychain.run(&mut secrets, turn).unwrap();
    let turn = secrets.delete(id, "ONLY");
    keychain.run(&mut secrets, turn).unwrap();

    // Empty map -> the keychain entry is deleted, not left as `{}`.
    assert!(keychain.data.get(&place(id)).is_none());

    let before = keychain.counts();
    let turn = secrets.provider(id);
    let map = keychain.run(&mut secrets, turn).unwrap();
    assert!(map.is_empty());
    assert_eq!(keychain.since(before), (0, 0, 0));
}

#[test]
fn delete_all_without_load() {
    let mut keychain = Keychain::new();
    let id = "delete_all_no_load";

    // Seed directly so `delete_all` has something to remove.
    keychain.data.insert(place(id), r#"{"A":"1"}"#.to_string());

    let mut secrets = Secrets::new();
    let before = keychain.counts();
    let turn = secrets.delete_all(id);
    keychain.run(&mut secrets, turn).unwrap();
    // No gets: delete_all never loads.
    assert_eq!(keychain.since(before).0, 0);
    assert!(keychain.data.get(&place(id)).is_none());
}

#[test]
fn multi_name_sorted() {
    let mut keychain = Keychain::new();
    let id = "multi_name";

    let mut secrets = Secrets::new();
    let turn = secrets.set(id, "B_KEY", "2");
    keychain.run(&mut secrets, turn).unwrap();
    let turn = secrets.set(id, "A_KEY", "1");
    keychain.run(&mut secrets, turn).unwrap();

    let turn = secrets.provider(id);
    let map = keychain.run(&mut secrets, turn).unwrap();
    assert_eq!(value(&map, "A_KEY"), Some("1"));
    assert_eq!(value(&map, "B_KEY"), Some("2"));

    let names = list_provider_secret_names(&map);
    assert_eq!(names, vec!["A_KEY".to_string(), "B_KEY".to_string()]);
}

#[test]
fn a_failed_write_leaves_the_cache() {
    let mut keychain = Keychain::new();
    let mut secrets = Secrets::new();
    let turn = secrets.set("p", "A", "1");
    keychain.run(&mut secrets, turn).unwrap();
    keychain.broken = true;
    let turn = secrets.set("p", "A", "2");
    assert_eq!(
        keychain.run(&mut secrets, turn).unwrap_err(),
        LlmError::Keychain("locked".to_string())
    );
    let turn = secrets.provider("p");
    let map = keychain.run(&mut secrets, turn).unwrap();
    assert_eq!(value(&map, "A"), Some("1"));
}

#[test]
fn a_failed_load_caches_nothing() {
    let mut keychain = Keychain::new();
    keychain.broken = true;
    let mut secrets = Secrets::new();
    let turn = secrets.provider("p");
    let e = keychain.run(&mut secrets, turn).unwrap_err();
    assert_eq!(e.to_string(), "keychain: locked");
    keychain.broken = false;
    let before = keychain.counts();
    let turn = secrets.provider("p");
    assert!(keychain.run(&mut secrets, turn).unwrap().is_empty());
    assert_eq!(keychain.since(before), (1, 0, 0));
}

#[test]
fn a_corrupt_entry_is_an_error_until_all_is_deleted() {
    let mut keychain = Keychain::new();
    keychain.data.insert(place("p"), r#"{"A":1}"#.to_string());
    let mut secrets = Secrets::new();
    let turn = secrets.provider("p");
    let e = keychain.run(&mut secrets, turn).unwrap_err();
    assert_eq!(
        e.to_string(),
        "invalid type: integer `1`, expected a string at line 1 column 6"
    );
    let turn = secrets.delete_all("p");
    keychain.run(&mut secrets, turn).unwrap();
    let turn = secrets.provider("p");
    assert!(keychain.run(&mut secrets, turn).unwrap().is_empty());
}

#[test]
fn deleting_all_of_nothing_succeeds() {
    let mut keychain = Keychain::new();
    let mut secrets = Secrets::new();
    let turn = secrets.delete_all("none");
    assert!(keychain.run(&mut secrets, turn).unwrap().is_empty());
    assert_eq!(keychain.counts(), (0, 0, 1));
}

#[test]
fn stored_secrets_read_back() {
    let mut map: StringMap<String> = StringMap::new();
    map.insert("B".to_string(), "x\"y\\\n".to_string());
    map.insert("A".to_string(), "\u{1}ü".to_string());
    let text = secrets_text(&map);
    assert_eq!(text, "{\"A\":\"\\u0001ü\",\"B\":\"x\\\"y\\\\\\n\"}");
    let back = parse_secrets(&text).unwrap();
    assert_eq!(value(&back, "A"), Some("\u{1}ü"));
    assert_eq!(value(&back, "B"), Some("x\"y\\\n"));
    assert_eq!(back.sorted_keys(), vec!["A".to_string(), "B".to_string()]);
}

#[test]
fn an_empty_value_is_refused() {
    let secrets = Secrets::new();
    assert_eq!(
        set_provider_secret(&secrets, "p", "A", "").unwrap_err(),
        "value must be non-empty"
    );
    assert!(matches!(
        set_provider_secret(&secrets, "p", "A", "1").unwrap(),
        Turn::Load { .. }
    ));
}
