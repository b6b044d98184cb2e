use ngram::database::index_words;
use ngram::database::Database;
use ngram::database::DocumentStore;
use ngram::multimap::Bucket;
use ngram::multimap::ConcurrentMultiMap;
use ngram::multimap::hash_key;

fn sorted(mut v: Vec<usize>) -> Vec<usize> {
    v.sort();
    v
}

#[test]
fn publish_search_retrieve_scenario() {
    let mut db = Database::new();
    assert_eq!(db.publish("The Quick Fox".to_string()), 0);
    assert_eq!(db.publish("quick brown fox".to_string()), 1);
    assert_eq!(sorted(db.search("quick")), vec![0, 1]);
    assert_eq!(sorted(db.search("THE")), vec![0]);
    assert_eq!(db.retrieve(1), Some("quick brown fox".to_string()));
    assert_eq!(db.retrieve(99), None);
}

#[test]
fn retrieve_returns_published_document() {
    let mut db = Database::new();
    for doc in ["", "one", "  spaced   out  ", "Mixed CASE words"] {
        let id = db.publish(doc.to_string());
        assert_eq!(db.retrieve(id), Some(doc.to_string()));
    }
    assert_eq!(db.len(), 4);
}

#[test]
fn every_token_is_searchable() {
    let mut db = Database::new();
    let id = db.publish("Alpha beta\tGAMMA\ndelta".to_string());
    for w in ["alpha", "Beta", "gamma", "DELTA"] {
        assert_eq!(db.search(w), vec![id]);
    }
}

#[test]
fn unknown_word_and_id() {
    let mut db = Database::new();
    assert_eq!(db.search("nothing"), Vec::<usize>::new());
    assert_eq!(db.retrieve(0), None);
    db.publish("something".to_string());
    assert_eq!(db.search("nothing"), Vec::<usize>::new());
    assert_eq!(db.retrieve(1), None);
}

#[test]
fn empty_document_gets_an_id() {
    let mut db = Database::new();
    assert_eq!(db.publish(String::new()), 0);
    assert_eq!(db.publish("   ".to_string()), 1);
    assert_eq!(db.search(""), Vec::<usize>::new());
}

#[test]
fn repeated_word_is_indexed_once() {
    let mut db = Database::new();
    let id = db.publish("fox Fox FOX".to_string());
    assert_eq!(db.search("fox"), vec![id]);
}

#[test]
fn index_words_lowercases_tokens() {
    assert_eq!(
        index_words("The  Quick\tFOX"),
        vec!["the".to_string(), "quick".to_string(), "fox".to_string()]
    );
    assert_eq!(index_words("   "), Vec::<String>::new());
}

#[test]
fn hundred_publishes_cover_ids() {
    let mut db = Database::new();
    let mut ids: Vec<usize> = Vec::new();
    for t in 0..10 {
        for k in 0..10 {
            ids.push(db.publish(format!("doc {} {}", t, k)));
        }
    }
    assert_eq!(sorted(ids), (0..100).collect::<Vec<usize>>());
    assert_eq!(db.len(), 100);
    assert_eq!(db.search("doc").len(), 100);
}

#[test]
fn store_appends_in_order() {
    let mut store = DocumentStore::new();
    assert_eq!(store.append("a".to_string()), 0);
    assert_eq!(store.append("b".to_string()), 1);
    assert_eq!(store.len(), 2);
    assert_eq!(store.get(0), Some("a".to_string()));
    assert_eq!(store.get(1), Some("b".to_string()));
    assert_eq!(store.get(2), None);
}

#[test]
fn bucket_insert_is_idempotent() {
    let mut b = Bucket::new();
    b.insert("k".to_string(), 1);
    b.insert("k".to_string(), 1);
    b.insert("k".to_string(), 2);
    b.insert("j".to_string(), 1);
    assert_eq!(b.values_for(&"k".to_string()), vec![1, 2]);
    assert_eq!(b.values_for(&"j".to_string()), vec![1]);
    assert_eq!(b.values_for(&"x".to_string()), Vec::<usize>::new());
}

#[test]
fn multimap_set_and_get() {
    let mut m = ConcurrentMultiMap::new(4);
    m.set("a".to_string(), 1);
    m.set("b".to_string(), 2);
    m.set("a".to_string(), 3);
    m.set("a".to_string(), 1);
    assert_eq!(m.get(&"a".to_string()), vec![1, 3]);
    assert_eq!(m.get(&"b".to_string()), vec![2]);
    assert_eq!(m.get(&"c".to_string()), Vec::<usize>::new());
}

#[test]
fn repeated_identical_sets_store_one_pair() {
    let mut m = ConcurrentMultiMap::new(8);
    for _ in 0..50 {
        m.set("same".to_string(), 42);
    }
    assert_eq!(m.get(&"same".to_string()), vec![42]);
}

#[test]
fn hash_key_is_stable() {
    let a = hash_key(&"word".to_string());
    assert_eq!(a, hash_key(&"word".to_string()));
}

#[test]
fn set_leaves_other_keys_and_order_does_not_matter() {
    let mut a = ConcurrentMultiMap::new(3);
    a.set("x".to_string(), 1);
    a.set("y".to_string(), 2);
    a.set("x".to_string(), 3);
    let mut b = ConcurrentMultiMap::new(3);
    b.set("x".to_string(), 3);
    b.set("x".to_string(), 1);
    b.set("y".to_string(), 2);
    assert_eq!(sorted(a.get(&"x".to_string())), sorted(b.get(&"x".to_string())));
    assert_eq!(a.get(&"y".to_string()), vec![2]);
    assert_eq!(b.get(&"y".to_string()), vec![2]);
}

#[test]
fn earlier_documents_and_entries_survive() {
    let mut db = Database::new();
    let first = db.publish("red apple".to_string());
    db.publish("green apple".to_string());
    db.publish("blue sky".to_string());
    assert_eq!(db.retrieve(first), Some("red apple".to_string()));
    assert_eq!(db.search("apple"), vec![0, 1]);
    assert_eq!(db.search("red"), vec![0]);
}
