use agent_hub::json::Json;
use agent_hub::store::MessageStore;

fn payload(tag: i64) -> Json {
    Json::Obj(vec![
        ("agent-message".to_string(), Json::Str(format!("m{tag}"))),
        ("n".to_string(), Json::Num(tag)),
    ])
}

#[test]
fn persist_then_reload_round_trip() {
    let mut store = MessageStore::new();
    store.insert("id-1".to_string(), payload(1));
    store.insert("id-2".to_string(), payload(2));
    store.insert("id-3".to_string(), Json::Str("bare".to_string()));
    let doc = store.to_document();
    let reloaded = MessageStore::from_document(&doc).expect("own document reloads");
    assert_eq!(reloaded.len(), 3);
    assert_eq!(reloaded.get("id-1"), Some(&payload(1)));
    assert_eq!(reloaded.get("id-2"), Some(&payload(2)));
    assert_eq!(reloaded.get("id-3"), Some(&Json::Str("bare".to_string())));
    assert_eq!(reloaded.get("id-4"), None);
    // and the reloaded store writes the very same document
    assert_eq!(reloaded.to_document(), doc);
}

#[test]
fn empty_store_round_trips() {
    let store = MessageStore::new();
    let doc = store.to_document();
    assert_eq!(doc.iter().collect::<String>(), "{}");
    let reloaded = MessageStore::from_document(&doc).expect("empty document reloads");
    assert_eq!(reloaded.len(), 0);
}

#[test]
fn insert_under_the_same_id_replaces() {
    let mut store = MessageStore::new();
    store.insert("id".to_string(), payload(1));
    store.insert("id".to_string(), payload(2));
    assert_eq!(store.len(), 1);
    assert_eq!(store.get("id"), Some(&payload(2)));
}

#[test]
fn clear_forgets_everything() {
    let mut store = MessageStore::new();
    store.insert("id".to_string(), payload(1));
    store.clear();
    assert_eq!(store.len(), 0);
    assert_eq!(store.get("id"), None);
}

#[test]
fn exotic_ids_and_payloads_round_trip() {
    let mut store = MessageStore::new();
    store.insert("id \"quoted\"".to_string(), Json::Str("\n\t".to_string()));
    store.insert("caf\u{e9}-\u{1f680}".to_string(), Json::Arr(vec![Json::Num(i64::MIN)]));
    store.insert(String::new(), Json::Obj(vec![]));
    let doc = store.to_document();
    let reloaded = MessageStore::from_document(&doc).expect("own document reloads");
    assert_eq!(reloaded.get("id \"quoted\""), Some(&Json::Str("\n\t".to_string())));
    assert_eq!(
        reloaded.get("caf\u{e9}-\u{1f680}"),
        Some(&Json::Arr(vec![Json::Num(i64::MIN)]))
    );
    assert_eq!(reloaded.get(""), Some(&Json::Obj(vec![])));
}

#[test]
fn only_objects_load_as_stores() {
    let not_an_object: Vec<char> = "[1,2,3]".chars().collect();
    assert!(MessageStore::from_document(&not_an_object).is_none());
    let garbage: Vec<char> = "{\"a\":".chars().collect();
    assert!(MessageStore::from_document(&garbage).is_none());
}

#[test]
fn repeated_ids_in_a_document_keep_the_later_payload() {
    let doc: Vec<char> = "{\"k\":1,\"k\":2}".chars().collect();
    let store = MessageStore::from_document(&doc).expect("object loads");
    assert_eq!(store.len(), 1);
    assert_eq!(store.get("k"), Some(&Json::Num(2)));
}
