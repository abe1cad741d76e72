use tforward::handler::{reply_text, Command};
use tforward::settings::{Accessor, Recepient, Settings, SettingsCache};

fn r(chat_id: i64, thread_id: Option<i32>) -> Recepient {
    Recepient { chat_id, thread_id }
}

#[test]
fn add_get_remove_scenario() {
    let mut store = Accessor::new("/tmp/settings.json");
    store.complete_load(None);
    let persisted = store.add_recepient(r(100, None));
    assert_eq!(store.get_settings().recepients, vec![r(100, None)]);
    assert_eq!(persisted.recepients, vec![r(100, None)]);
    let persisted = store.add_recepient(r(100, None));
    assert_eq!(store.get_settings().recepients, vec![r(100, None)]);
    assert_eq!(persisted.recepients, vec![r(100, None)]);
    let persisted = store.remove_recepient(r(100, None));
    assert!(store.get_settings().recepients.is_empty());
    assert!(persisted.recepients.is_empty());
}

#[test]
fn remove_absent_changes_nothing() {
    let mut store = Accessor::new("s.json");
    store.add_recepient(r(1, None));
    store.add_recepient(r(2, Some(7)));
    let persisted = store.remove_recepient(r(2, None));
    assert_eq!(persisted.recepients, vec![r(1, None), r(2, Some(7))]);
    assert_eq!(store.get_settings().recepients, vec![r(1, None), r(2, Some(7))]);
}

#[test]
fn thread_makes_a_distinct_recipient() {
    let mut store = Accessor::new("s.json");
    store.add_recepient(r(5, None));
    store.add_recepient(r(5, Some(3)));
    assert_eq!(store.get_settings().recepients.len(), 2);
    store.remove_recepient(r(5, Some(3)));
    assert_eq!(store.get_settings().recepients, vec![r(5, None)]);
}

#[test]
fn load_drops_repeated_entries_and_runs_once() {
    let mut store = Accessor::new("s.json");
    assert!(store.needs_load());
    let stored = Settings { recepients: vec![r(1, None), r(2, None), r(1, None), r(3, Some(4))] };
    store.complete_load(Some(stored));
    assert!(!store.needs_load());
    assert_eq!(store.get_settings().recepients, vec![r(1, None), r(2, None), r(3, Some(4))]);
    store.complete_load(None);
    assert_eq!(store.get_settings().recepients.len(), 3);
}

#[test]
fn missing_document_loads_empty() {
    let mut store = Accessor::new("absent.json");
    store.complete_load(None);
    assert!(!store.needs_load());
    assert!(store.get_settings().recepients.is_empty());
    assert_eq!(store.filepath(), "absent.json");
}

#[test]
fn commands_subscribe_and_unsubscribe() {
    let mut store = Accessor::new("s.json");
    let persisted = store.apply_command(Command::Subscribe, r(9, Some(1)));
    assert_eq!(persisted.recepients, vec![r(9, Some(1))]);
    let persisted = store.apply_command(Command::Unsubscribe, r(9, Some(1)));
    assert!(persisted.recepients.is_empty());
    assert_eq!(reply_text(Command::Subscribe), "Subscribed!");
    assert_eq!(reply_text(Command::Unsubscribe), "Unsubscribed!");
}

#[test]
fn fresh_cache_is_unloaded_and_empty() {
    let cache = SettingsCache::new();
    assert!(!cache.loaded);
    assert!(cache.settings.recepients.is_empty());
    assert!(Settings::new().recepients.is_empty());
}
