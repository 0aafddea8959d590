use oxigraph_cloud::backend::{StorageBackendReadableTransaction, StorageBackendReader, StorageBackendTransaction};
use oxigraph_cloud::memory::MemoryStorage;
use oxigraph_cloud::store::{GraphName, Quad, Subject, Term};

fn quad(s: &str, g: Option<&str>) -> Quad {
    Quad {
        subject: Subject::NamedNode(s.to_owned()),
        predicate: "http://example.com/p".to_owned(),
        object: Term::NamedNode("http://example.com/o".to_owned()),
        graph_name: match g {
            Some(g) => GraphName::NamedNode(g.to_owned()),
            None => GraphName::DefaultGraph,
        },
    }
}

#[test]
fn memory_insert_and_query() {
    let mut storage = MemoryStorage::new();
    let q = quad("http://example.com/s", None);
    let mut txn = storage.start_transaction();
    txn.insert(&q);
    txn.commit().unwrap();
    let reader = storage.snapshot();
    assert!(reader.contains(&q).unwrap());
    assert_eq!(reader.len().unwrap(), 1);
    assert!(!reader.is_empty().unwrap());
}

#[test]
fn memory_delete() {
    let mut storage = MemoryStorage::new();
    let q = quad("http://example.com/s", None);
    let mut txn = storage.start_transaction();
    txn.insert(&q);
    txn.commit().unwrap();
    let mut txn = storage.start_transaction();
    txn.remove(&q);
    txn.commit().unwrap();
    assert!(!storage.snapshot().contains(&q).unwrap());
}

#[test]
fn memory_snapshot_isolation() {
    let mut storage = MemoryStorage::new();
    let q = quad("http://example.com/s", None);
    let pre_snapshot = storage.snapshot();
    let mut txn = storage.start_transaction();
    txn.insert(&q);
    txn.commit().unwrap();
    assert!(storage.snapshot().contains(&q).unwrap());
    assert!(!pre_snapshot.contains(&q).unwrap());
}

#[test]
fn memory_rollback_on_drop() {
    let mut storage = MemoryStorage::new();
    let q = quad("http://example.com/s", None);
    {
        let mut txn = storage.start_transaction();
        txn.insert(&q);
    }
    assert!(storage.snapshot().is_empty().unwrap());
}

#[test]
fn memory_named_graph_lifecycle() {
    let mut storage = MemoryStorage::new();
    let g = GraphName::NamedNode("http://example.com/g1".to_owned());
    let mut txn = storage.start_transaction();
    txn.insert_named_graph(&g);
    txn.commit().unwrap();
    let reader = storage.snapshot();
    assert!(reader.contains_named_graph(&g).unwrap());
    assert_eq!(reader.named_graphs().unwrap().len(), 1);
    let mut txn = storage.start_transaction();
    txn.insert(&quad("http://example.com/s", Some("http://example.com/g1")));
    txn.remove_named_graph(&g).unwrap();
    txn.commit().unwrap();
    let reader = storage.snapshot();
    assert!(!reader.contains_named_graph(&g).unwrap());
    assert!(reader.is_empty().unwrap());
}

#[test]
fn memory_clears_by_graph() {
    let mut storage = MemoryStorage::new();
    let d = quad("http://example.com/d", None);
    let n = quad("http://example.com/n", Some("http://example.com/g"));
    let mut txn = storage.start_transaction();
    txn.insert(&d);
    txn.insert(&n);
    txn.commit().unwrap();
    let mut txn = storage.start_transaction();
    txn.clear_default_graph();
    let reader = txn.reader();
    assert!(!reader.contains(&d).unwrap());
    assert!(reader.contains(&n).unwrap());
    txn.clear_all_named_graphs();
    assert!(txn.reader().is_empty().unwrap());
    assert!(txn.reader().contains_named_graph(&GraphName::NamedNode("http://example.com/g".to_owned())).unwrap());
    txn.remove_all_named_graphs();
    assert!(txn.reader().named_graphs().unwrap().is_empty());
    txn.commit().unwrap();
    let reader = storage.snapshot();
    assert!(reader.is_empty().unwrap());
    assert!(reader.validate().is_ok());
}

#[test]
fn memory_query_by_pattern() {
    let mut storage = MemoryStorage::new();
    let a = quad("http://example.com/s1", None);
    let b = quad("http://example.com/s2", None);
    let c = quad("http://example.com/s1", Some("http://example.com/g"));
    let mut txn = storage.start_transaction();
    txn.insert(&a);
    txn.insert(&b);
    txn.insert(&c);
    txn.commit().unwrap();
    let reader = storage.snapshot();
    let s1 = Subject::NamedNode("http://example.com/s1".to_owned());
    let found = reader.quads_for_pattern(Some(&s1), None, None, None).unwrap();
    assert_eq!(found, vec![a.clone(), c.clone()]);
    let found = reader.quads_for_pattern(Some(&s1), None, None, Some(&GraphName::DefaultGraph)).unwrap();
    assert_eq!(found, vec![a]);
    let p = "http://example.com/p".to_owned();
    assert_eq!(reader.quads_for_pattern(None, Some(&p), None, None).unwrap().len(), 3);
    let other = "http://example.com/other".to_owned();
    assert!(reader.quads_for_pattern(None, Some(&other), None, None).unwrap().is_empty());
}

#[test]
fn memory_readable_transaction_sees_own_writes() {
    let mut storage = MemoryStorage::new();
    let q = quad("http://example.com/s", Some("http://example.com/g"));
    let mut txn = storage.start_transaction();
    txn.insert(&q);
    assert!(txn.reader().contains(&q).unwrap());
    let g = GraphName::NamedNode("http://example.com/g".to_owned());
    txn.clear_graph(&g).unwrap();
    assert!(!txn.reader().contains(&q).unwrap());
    assert!(txn.reader().contains_named_graph(&g).unwrap());
    drop(txn);
    assert!(storage.snapshot().is_empty().unwrap());
}
