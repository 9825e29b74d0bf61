use std::time::Duration;
use yari::config::{Config, TimeoutConfig};
use yari::state_machine::in_memory_kv::{InMemoryKV, KVMessage};
use yari::state_machine::string_append_state_machine::{StringAppendMessage, StringAppendStateMachine};
use yari::state_machine::{Message, StateMachine};

fn words(w: &[&str]) -> Vec<String> {
    w.iter().map(|s| s.to_string()).collect()
}

#[test]
fn kv_set_get_del() {
    let mut kv = InMemoryKV::new();
    assert_eq!(kv.apply(&KVMessage::Put("k".to_string(), "v".to_string())), None);
    assert_eq!(kv.apply(&KVMessage::Get("k".to_string())), Some("v".to_string()));
    assert_eq!(kv.apply(&KVMessage::Put("k".to_string(), "w".to_string())), None);
    assert_eq!(kv.apply(&KVMessage::Get("k".to_string())), Some("w".to_string()));
    assert_eq!(kv.apply(&KVMessage::Del("k".to_string())), None);
    assert_eq!(kv.apply(&KVMessage::Get("k".to_string())), None);
    assert_eq!(kv.apply(&KVMessage::Del("missing".to_string())), None);
}

#[test]
fn kv_keys_with_and_without_prefix() {
    let mut kv = InMemoryKV::new();
    for k in ["apple", "apricot", "banana"] {
        kv.apply(&KVMessage::Put(k.to_string(), "1".to_string()));
    }
    assert_eq!(kv.apply(&KVMessage::Keys(Some("ap".to_string()))), Some("apple\napricot".to_string()));
    assert_eq!(kv.apply(&KVMessage::Keys(None)), Some("apple\napricot\nbanana".to_string()));
    assert_eq!(kv.apply(&KVMessage::Keys(Some("zz".to_string()))), Some(String::new()));
}

#[test]
fn kv_from_cli() {
    assert!(matches!(KVMessage::from_cli(words(&["get", "k"])), Ok(Some(KVMessage::Get(k))) if k == "k"));
    assert!(matches!(KVMessage::from_cli(words(&["set", "k", "v"])), Ok(Some(KVMessage::Put(k, v))) if k == "k" && v == "v"));
    assert!(matches!(KVMessage::from_cli(words(&["del", "k"])), Ok(Some(KVMessage::Del(k))) if k == "k"));
    assert!(matches!(KVMessage::from_cli(words(&["keys"])), Ok(Some(KVMessage::Keys(None)))));
    assert!(matches!(KVMessage::from_cli(words(&["keys", "p"])), Ok(Some(KVMessage::Keys(Some(p)))) if p == "p"));
    assert!(KVMessage::from_cli(words(&[])).is_err());
    let err = KVMessage::from_cli(words(&["get"])).unwrap_err();
    assert!(err.starts_with("get with 0 arguments not recognized as a command."));
    assert!(KVMessage::from_cli(words(&["frob", "x"])).is_err());
}

#[test]
fn string_append_joins_words_and_accumulates() {
    let m = StringAppendMessage::from_cli(words(&["hello", "big", "world"])).unwrap().unwrap();
    assert_eq!(m.0, "hello big world");
    let mut sm = StringAppendStateMachine::default();
    assert_eq!(sm.apply(&m), vec!["hello big world".to_string()]);
    assert_eq!(sm.apply(&StringAppendMessage("x".to_string())), vec!["hello big world".to_string(), "x".to_string()]);
}

#[test]
fn config_defaults_and_heartbeat() {
    let c = Config::default();
    assert_eq!(c.timeout(), 150..300);
    assert_eq!(c.heartbeat_interval(), Duration::from_millis(75));
    assert_eq!(c.heartbeat_interval_millis(), 75);
    let c = Config { timeout: TimeoutConfig { min: 10, max: 20 }, heartbeat_interval: Some(4) };
    assert_eq!(c.heartbeat_interval(), Duration::from_millis(4));
    for _ in 0..50 {
        let t = c.election_timeout_millis();
        assert!((10..20).contains(&t));
    }
    let empty = Config { timeout: TimeoutConfig { min: 30, max: 30 }, heartbeat_interval: None };
    assert_eq!(empty.election_timeout_millis(), 30);
}
