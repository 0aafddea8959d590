use oxigraph_cloud::cdc::{make_subscription, CdcConfig, ChannelType, SubscriptionRegistry};
use oxigraph_cloud::store::{GraphName, Quad, QuadStore, Subject, Term};
use oxigraph_cloud::transactions::{idle_ids, replay_ops, update_diff_ops, BufferedOp, TransactionError, TransactionRegistry};
use std::time::{Duration, Instant};

fn quad(s: &str) -> Quad {
    Quad {
        subject: Subject::NamedNode(s.to_owned()),
        predicate: "http://ex.org/p".to_owned(),
        object: Term::NamedNode("http://ex.org/o".to_owned()),
        graph_name: GraphName::DefaultGraph,
    }
}

#[test]
fn transaction_lifecycle_commits_buffered_operations() {
    let mut registry = TransactionRegistry::new(Duration::from_secs(300));
    let id = registry.begin();
    assert_eq!(id.len(), 36);
    assert_eq!(id.as_bytes()[14], b'4');
    assert_eq!(registry.add(&id, vec![quad("http://ex.org/a"), quad("http://ex.org/b")]).unwrap(), 2);
    assert_eq!(registry.remove(&id, vec![quad("http://ex.org/a")]).unwrap(), 1);
    let mut store = QuadStore::new();
    let committed = registry.commit(&id, &mut store).unwrap();
    assert_eq!(committed.txn_id, id);
    assert_eq!(committed.ops.len(), 2);
    assert!(matches!(committed.ops[0], BufferedOp::InsertQuads(ref q) if q.len() == 2));
    assert_eq!(store.len(), 1);
    assert!(store.contains(&quad("http://ex.org/b")));
    assert!(!store.contains(&quad("http://ex.org/a")));
    assert!(matches!(registry.commit(&id, &mut store), Err(TransactionError::NotFound)));
}

#[test]
fn unknown_transactions_are_not_found() {
    let mut registry = TransactionRegistry::new(Duration::from_secs(300));
    assert!(matches!(registry.add("nope", vec![quad("http://ex.org/a")]), Err(TransactionError::NotFound)));
    assert!(matches!(registry.remove("nope", vec![]), Err(TransactionError::NotFound)));
    assert!(matches!(registry.update("nope", "INSERT DATA {}".to_owned()), Err(TransactionError::NotFound)));
    assert!(matches!(registry.rollback("nope"), Err(TransactionError::NotFound)));
    let mut store = QuadStore::new();
    assert!(matches!(registry.commit("nope", &mut store), Err(TransactionError::NotFound)));
}

#[test]
fn rollback_discards_the_transaction() {
    let mut registry = TransactionRegistry::new(Duration::from_secs(300));
    let id = registry.begin();
    registry.add(&id, vec![quad("http://ex.org/a")]).unwrap();
    registry.rollback(&id).unwrap();
    assert!(matches!(registry.rollback(&id), Err(TransactionError::NotFound)));
    let mut store = QuadStore::new();
    assert!(matches!(registry.commit(&id, &mut store), Err(TransactionError::NotFound)));
    assert_eq!(store.len(), 0);
}

#[test]
fn commit_with_sparql_update_leaves_store_unchanged() {
    let mut registry = TransactionRegistry::new(Duration::from_secs(300));
    let id = registry.begin();
    registry.add(&id, vec![quad("http://ex.org/a")]).unwrap();
    registry.update(&id, "DELETE WHERE { ?s ?p ?o }".to_owned()).unwrap();
    let mut store = QuadStore::new();
    match registry.commit(&id, &mut store) {
        Err(TransactionError::Query(m)) => assert_eq!(m, "SPARQL UPDATE is not supported by this store"),
        Err(e) => panic!("unexpected error {}", e.message()),
        Ok(_) => panic!("commit should fail"),
    }
    assert_eq!(store.len(), 0);
    assert!(matches!(registry.rollback(&id), Err(TransactionError::NotFound)));
}

#[test]
fn cleanup_removes_only_idle_transactions() {
    let mut fresh = TransactionRegistry::new(Duration::from_secs(3600));
    let id = fresh.begin();
    assert_eq!(fresh.cleanup_expired(), 0);
    assert!(fresh.rollback(&id).is_ok());

    let mut idle = TransactionRegistry::new(Duration::from_millis(0));
    let a = idle.begin();
    let b = idle.begin();
    let start = Instant::now();
    while start.elapsed() < Duration::from_millis(5) {}
    assert_eq!(idle.cleanup_expired(), 2);
    assert!(matches!(idle.rollback(&a), Err(TransactionError::NotFound)));
    assert!(matches!(idle.rollback(&b), Err(TransactionError::NotFound)));
}

fn config() -> CdcConfig {
    CdcConfig {
        bind_port: 7879,
        main_server_url: "http://localhost:7878".to_owned(),
        buffer_size: 16,
        batch_window: Duration::from_millis(100),
    }
}

#[test]
fn subscription_registry_stores_by_id() {
    let mut registry = SubscriptionRegistry::new();
    assert_eq!(registry.count(), 0);
    let sub = make_subscription("sub-1".to_owned(), Instant::now(), &config(), "WebSocketChannel2023", None, Some("41".to_owned()))
        .unwrap();
    registry.insert(sub);
    assert_eq!(registry.count(), 1);
    let got = registry.get("sub-1").unwrap();
    assert_eq!(got.id, "sub-1");
    assert_eq!(got.topic, "http://localhost:7878");
    assert_eq!(got.channel_type, ChannelType::WebSocketChannel2023);
    assert_eq!(got.last_event_id, Some(41));
    assert!(registry.get("sub-2").is_none());
    let removed = registry.remove("sub-1").unwrap();
    assert_eq!(removed.id, "sub-1");
    assert_eq!(registry.count(), 0);
    assert!(registry.remove("sub-1").is_none());
}

#[test]
fn subscription_registry_replaces_same_id() {
    let mut registry = SubscriptionRegistry::new();
    let first = make_subscription("s".to_owned(), Instant::now(), &config(), "WebSocketChannel2023", None, None).unwrap();
    let second = make_subscription("s".to_owned(), Instant::now(), &config(), "StreamingHTTPChannel2023", Some("http://t".to_owned()), None)
        .unwrap();
    registry.insert(first);
    registry.insert(second);
    assert_eq!(registry.count(), 1);
    let got = registry.get("s").unwrap();
    assert_eq!(got.channel_type, ChannelType::StreamingHTTPChannel2023);
    assert_eq!(got.topic, "http://t");
}

fn store_of(names: &[&str]) -> QuadStore {
    let mut store = QuadStore::new();
    for n in names {
        store.insert(quad(n));
    }
    store
}

#[test]
fn update_deltas_record_added_and_removed_quads() {
    let before = store_of(&["http://ex.org/a", "http://ex.org/b"]);
    let after = store_of(&["http://ex.org/b", "http://ex.org/c"]);
    assert!(update_diff_ops(false, "U", &before, &after).is_none());
    assert!(update_diff_ops(true, "U", &before, &before).is_none());
    let ops = update_diff_ops(true, "U", &before, &after).unwrap();
    assert_eq!(ops.len(), 2);
    assert!(matches!(&ops[0], BufferedOp::InsertQuads(q) if q.len() == 1 && q[0] == quad("http://ex.org/c")));
    assert!(matches!(&ops[1], BufferedOp::RemoveQuads(q) if q.len() == 1 && q[0] == quad("http://ex.org/a")));
    let mut replayed = store_of(&["http://ex.org/a", "http://ex.org/b"]);
    assert_eq!(replay_ops(&mut replayed, &ops, 0), 2);
    assert_eq!(replayed.len(), after.len());
    for q in after.quads() {
        assert!(replayed.contains(q));
    }
    let only_added = update_diff_ops(true, "U", &before, &store_of(&["http://ex.org/a", "http://ex.org/b", "http://ex.org/d"])).unwrap();
    assert_eq!(only_added.len(), 1);
    assert!(matches!(&only_added[0], BufferedOp::InsertQuads(q) if q.len() == 1));
}

#[test]
fn expire_removes_the_given_transactions() {
    let mut registry = TransactionRegistry::new(Duration::from_secs(300));
    let a = registry.begin();
    let b = registry.begin();
    assert_eq!(registry.expire(&[a.clone(), "nope".to_owned(), a.clone()]), 1);
    assert!(matches!(registry.rollback(&a), Err(TransactionError::NotFound)));
    assert!(registry.rollback(&b).is_ok());
    assert_eq!(registry.expire(&[]), 0);
}

#[test]
fn idle_ids_picks_the_readings_past_the_limit() {
    let ids = vec!["a".to_owned(), "b".to_owned(), "c".to_owned(), "d".to_owned()];
    let readings = [5u128, 11, 10, 0];
    assert_eq!(idle_ids(&ids, &readings, 10), vec!["b".to_owned()]);
    assert_eq!(idle_ids(&ids, &readings, 4), vec!["a".to_owned(), "b".to_owned(), "c".to_owned()]);
    assert!(idle_ids(&ids, &readings, 11).is_empty());
    assert!(idle_ids(&[], &[], 0).is_empty());
}
