use oxigraph_cloud::changelog::{
    days_to_ymd, entry_to_detail_json, entry_to_list_json, format_timestamp, format_timestamp_at,
    write_entry_to_store, Changelog, ChangelogEntry, ChangelogError,
};
use oxigraph_cloud::store::{GraphName, Literal, Quad, QuadStore, Subject, Term};
use oxigraph_cloud::server::commit_transaction;
use oxigraph_cloud::transactions::{BufferedOp, TransactionError, TransactionRegistry};
use std::time::Duration;

fn iri(s: &str) -> String {
    s.to_owned()
}

fn quad(s: &str, p: &str, o: &str) -> Quad {
    Quad {
        subject: Subject::NamedNode(iri(s)),
        predicate: iri(p),
        object: Term::NamedNode(iri(o)),
        graph_name: GraphName::DefaultGraph,
    }
}

fn lit_quad(s: &str, p: &str, v: &str) -> Quad {
    Quad {
        subject: Subject::NamedNode(iri(s)),
        predicate: iri(p),
        object: Term::Literal(Literal::Simple(v.to_owned())),
        graph_name: GraphName::DefaultGraph,
    }
}

fn data_quads(store: &QuadStore) -> Vec<Quad> {
    store
        .quads()
        .iter()
        .filter(|q| match &q.graph_name {
            GraphName::NamedNode(g) => g != "urn:oxigraph:changelog",
            _ => true,
        })
        .cloned()
        .collect()
}

#[test]
fn timestamps_are_utc_calendar_dates() {
    assert_eq!(format_timestamp_at(0), "1970-01-01T00:00:00Z");
    assert_eq!(format_timestamp_at(1_700_000_000), "2023-11-14T22:13:20Z");
    assert_eq!(format_timestamp_at(951_782_400), "2000-02-29T00:00:00Z");
    assert_eq!(format_timestamp_at(951_868_799), "2000-02-29T23:59:59Z");
    assert_eq!(format_timestamp_at(4_102_444_800), "2100-01-01T00:00:00Z");
    assert_eq!(format_timestamp_at(253_402_300_799), "9999-12-31T23:59:59Z");
    assert_eq!(format_timestamp_at(253_402_300_800), "10000-01-01T00:00:00Z");
}

#[test]
fn days_to_ymd_known_days() {
    assert_eq!(days_to_ymd(0), (1970, 1, 1));
    assert_eq!(days_to_ymd(31), (1970, 2, 1));
    assert_eq!(days_to_ymd(59), (1970, 3, 1));
    assert_eq!(days_to_ymd(11_016), (2000, 2, 29));
    assert_eq!(days_to_ymd(11_017), (2000, 3, 1));
    assert_eq!(days_to_ymd(47_540), (2100, 2, 28));
    assert_eq!(days_to_ymd(47_541), (2100, 3, 1));
}

#[test]
fn current_timestamp_has_the_iso_shape() {
    let t = format_timestamp();
    assert_eq!(t.len(), 20);
    let b = t.as_bytes();
    assert_eq!(b[4], b'-');
    assert_eq!(b[7], b'-');
    assert_eq!(b[10], b'T');
    assert_eq!(b[13], b':');
    assert_eq!(b[16], b':');
    assert_eq!(b[19], b'Z');
    assert!(t.as_str() > "2020-01-01T00:00:00Z");
}

#[test]
fn disabled_changelog_refuses_everything() {
    let mut log = Changelog::new(false, 0);
    let mut store = QuadStore::new();
    assert!(!log.is_enabled());
    let ops = vec![BufferedOp::InsertQuads(vec![quad("http://e/a", "http://e/p", "http://e/b")])];
    assert!(matches!(log.record_at(&mut store, &ops, "store", 0), Err(ChangelogError::Disabled)));
    assert!(matches!(log.get(&store, 1), Err(ChangelogError::Disabled)));
    assert!(matches!(log.list(&store, 0, 20), Err(ChangelogError::Disabled)));
    assert!(matches!(log.undo_at(&mut store, 1, 0), Err(ChangelogError::Disabled)));
    assert!(matches!(log.purge(&mut store), Err(ChangelogError::Disabled)));
    assert_eq!(store.len(), 0);
}

#[test]
fn get_after_record_gives_the_entry_back() {
    let mut log = Changelog::new(true, 0);
    let mut store = QuadStore::new();
    let q1 = quad("http://e/a", "http://e/p", "http://e/b");
    let q2 = lit_quad("http://e/a", "http://e/name", "line one\nsays \"hi\" \\ \u{1}");
    let q3 = Quad {
        subject: Subject::BlankNode("b0".to_owned()),
        predicate: iri("http://e/q"),
        object: Term::Literal(Literal::LanguageTagged("bonjour".to_owned(), "fr".to_owned())),
        graph_name: GraphName::NamedNode(iri("http://e/g")),
    };
    let q4 = Quad {
        subject: Subject::NamedNode(iri("http://e/c")),
        predicate: iri("http://e/age"),
        object: Term::Literal(Literal::Typed("42".to_owned(), iri("http://www.w3.org/2001/XMLSchema#integer"))),
        graph_name: GraphName::BlankNode("g1".to_owned()),
    };
    let ops = vec![
        BufferedOp::InsertQuads(vec![q1.clone(), q2.clone()]),
        BufferedOp::RemoveQuads(vec![q3.clone()]),
        BufferedOp::InsertQuads(vec![q4.clone()]),
    ];
    let entry = log.record_at(&mut store, &ops, "transaction", 1_700_000_000).unwrap();
    assert_eq!(entry.id, 1);
    assert_eq!(entry.timestamp, "2023-11-14T22:13:20Z");
    assert_eq!(entry.operation, "transaction");
    assert_eq!(entry.inserted, vec![q1, q2, q4]);
    assert_eq!(entry.removed, vec![q3]);
    assert!(entry.undoable);
    let back = log.get(&store, 1).unwrap().unwrap();
    assert_eq!(back.id, entry.id);
    assert_eq!(back.timestamp, entry.timestamp);
    assert_eq!(back.operation, entry.operation);
    assert_eq!(back.inserted, entry.inserted);
    assert_eq!(back.removed, entry.removed);
    assert_eq!(back.undoable, entry.undoable);
    assert!(log.get(&store, 2).unwrap().is_none());
}

#[test]
fn recorded_entry_is_written_as_log_quads() {
    let mut log = Changelog::new(true, 0);
    let mut store = QuadStore::new();
    let ops = vec![BufferedOp::InsertQuads(vec![quad("http://e/a", "http://e/p", "http://e/b")])];
    log.record_at(&mut store, &ops, "store", 0).unwrap();
    let log_graph = GraphName::NamedNode(iri("urn:oxigraph:changelog"));
    let subject = Subject::NamedNode(iri("urn:oxigraph:changelog:1"));
    let expect = |p: &str, v: &str| Quad {
        subject: subject.clone(),
        predicate: iri(p),
        object: Term::Literal(Literal::Simple(v.to_owned())),
        graph_name: log_graph.clone(),
    };
    assert!(store.contains(&Quad {
        subject: subject.clone(),
        predicate: iri("http://www.w3.org/1999/02/22-rdf-syntax-ns#type"),
        object: Term::NamedNode(iri("urn:oxigraph:ChangelogEntry")),
        graph_name: log_graph.clone(),
    }));
    assert!(store.contains(&expect("urn:oxigraph:txnId", "1")));
    assert!(store.contains(&expect("urn:oxigraph:timestamp", "1970-01-01T00:00:00Z")));
    assert!(store.contains(&expect("urn:oxigraph:operation", "store")));
    assert!(store.contains(&expect("urn:oxigraph:undoable", "true")));
    assert!(store.contains(&expect("urn:oxigraph:insertCount", "1")));
    assert!(store.contains(&expect("urn:oxigraph:removeCount", "0")));
    assert!(store.contains(&expect(
        "urn:oxigraph:insertedNQuads",
        "<http://e/a> <http://e/p> <http://e/b> .\n"
    )));
    assert_eq!(store.len(), 8);
}

#[test]
fn write_entry_to_store_skips_empty_deltas() {
    let mut store = QuadStore::new();
    let entry = ChangelogEntry {
        id: 7,
        timestamp: "t".to_owned(),
        operation: "update".to_owned(),
        inserted: vec![],
        removed: vec![],
        undoable: false,
    };
    write_entry_to_store(&mut store, &entry);
    assert_eq!(store.len(), 7);
}

#[test]
fn list_is_newest_first_and_paged() {
    let mut log = Changelog::new(true, 0);
    let mut store = QuadStore::new();
    for (i, op) in ["a", "b", "c", "d"].iter().enumerate() {
        let ops = vec![BufferedOp::InsertQuads(vec![quad("http://e/s", "http://e/p", &format!("http://e/{i}"))])];
        log.record_at(&mut store, &ops, op, i as u64).unwrap();
    }
    let all = log.list(&store, 0, 20).unwrap();
    let ids: Vec<u64> = all.iter().map(|e| e.id).collect();
    assert_eq!(ids, vec![4, 3, 2, 1]);
    assert_eq!(all[0].operation, "d");
    assert_eq!(all[3].timestamp, "1970-01-01T00:00:00Z");
    assert!(all.iter().all(|e| e.inserted.is_empty() && e.removed.is_empty() && e.undoable));
    let page: Vec<u64> = log.list(&store, 1, 2).unwrap().iter().map(|e| e.id).collect();
    assert_eq!(page, vec![3, 2]);
    assert!(log.list(&store, 4, 2).unwrap().is_empty());
    assert_eq!(log.list(&store, 3, usize::MAX).unwrap().len(), 1);
}

#[test]
fn undo_restores_the_data() {
    let mut log = Changelog::new(true, 0);
    let mut store = QuadStore::new();
    let kept = quad("http://e/k", "http://e/p", "http://e/v");
    let old = quad("http://e/o", "http://e/p", "http://e/v");
    store.insert(kept.clone());
    store.insert(old.clone());
    let new = quad("http://e/n", "http://e/p", "http://e/v");
    store.insert(new.clone());
    store.remove(&old);
    let ops = vec![
        BufferedOp::InsertQuads(vec![new.clone()]),
        BufferedOp::RemoveQuads(vec![old.clone()]),
    ];
    let entry = log.record_at(&mut store, &ops, "transaction", 10).unwrap();
    let undo = log.undo_at(&mut store, entry.id, 20).unwrap();
    assert_eq!(undo.id, 2);
    assert_eq!(undo.operation, "undo:1");
    assert_eq!(undo.inserted, vec![old.clone()]);
    assert_eq!(undo.removed, vec![new.clone()]);
    assert_eq!(undo.timestamp, "1970-01-01T00:00:20Z");
    let mut data = data_quads(&store);
    data.sort_by_key(|q| format!("{q:?}"));
    let mut expected = vec![kept, old];
    expected.sort_by_key(|q| format!("{q:?}"));
    assert_eq!(data, expected);
}

#[test]
fn undo_errors() {
    let mut log = Changelog::new(true, 0);
    let mut store = QuadStore::new();
    assert!(matches!(log.undo_at(&mut store, 5, 0), Err(ChangelogError::NotFound)));
    let ops = vec![BufferedOp::SparqlUpdate("DELETE WHERE { ?s ?p ?o }".to_owned())];
    let entry = log.record_at(&mut store, &ops, "update", 0).unwrap();
    assert!(!entry.undoable);
    assert!(matches!(log.undo_at(&mut store, entry.id, 0), Err(ChangelogError::NotUndoable)));
}

#[test]
fn purge_removes_only_the_log() {
    let mut log = Changelog::new(true, 0);
    let mut store = QuadStore::new();
    let data = quad("http://e/a", "http://e/p", "http://e/b");
    store.insert(data.clone());
    let ops = vec![BufferedOp::InsertQuads(vec![data.clone()])];
    log.record_at(&mut store, &ops, "store", 0).unwrap();
    assert_eq!(log.purge(&mut store).unwrap(), 8);
    assert_eq!(store.quads().to_vec(), vec![data]);
    assert!(log.list(&store, 0, 10).unwrap().is_empty());
}

#[test]
fn retention_prunes_old_entries() {
    let mut log = Changelog::new(true, 2);
    let mut store = QuadStore::new();
    for i in 0..4u64 {
        let ops = vec![BufferedOp::InsertQuads(vec![quad("http://e/s", "http://e/p", &format!("http://e/{i}"))])];
        log.record_at(&mut store, &ops, "store", i).unwrap();
    }
    let ids: Vec<u64> = log.list(&store, 0, 10).unwrap().iter().map(|e| e.id).collect();
    assert_eq!(ids, vec![4, 3]);
    assert!(log.get(&store, 2).unwrap().is_none());
    assert!(log.get(&store, 3).unwrap().is_some());
}

#[test]
fn init_counter_continues_after_the_largest_id() {
    let mut log = Changelog::new(true, 0);
    let mut store = QuadStore::new();
    let ops = vec![BufferedOp::InsertQuads(vec![quad("http://e/a", "http://e/p", "http://e/b")])];
    for _ in 0..3 {
        log.record_at(&mut store, &ops, "store", 0).unwrap();
    }
    let mut fresh = Changelog::new(true, 0);
    fresh.init_counter(&store);
    let next = fresh.record_at(&mut store, &ops, "store", 0).unwrap();
    assert_eq!(next.id, 4);
    let mut off = Changelog::new(false, 0);
    off.init_counter(&store);
    assert!(!off.is_enabled());
}

#[test]
fn record_with_the_clock_stamps_now() {
    let mut log = Changelog::new(true, 0);
    let mut store = QuadStore::new();
    let ops = vec![BufferedOp::InsertQuads(vec![quad("http://e/a", "http://e/p", "http://e/b")])];
    let e = log.record(&mut store, &ops, "store").unwrap();
    assert!(e.timestamp.as_str() > "2020-01-01T00:00:00Z");
    let u = log.undo(&mut store, e.id).unwrap();
    assert_eq!(u.operation, "undo:1");
}

#[test]
fn json_of_entries() {
    let entry = ChangelogEntry {
        id: 3,
        timestamp: "2024-01-02T03:04:05Z".to_owned(),
        operation: "say \"hi\"\\\n\r\t".to_owned(),
        inserted: vec![quad("http://e/a", "http://e/p", "http://e/b")],
        removed: vec![],
        undoable: true,
    };
    assert_eq!(
        entry_to_list_json(&entry),
        "{\"id\":3,\"timestamp\":\"2024-01-02T03:04:05Z\",\"operation\":\"say \\\"hi\\\"\\\\\\n\\r\\t\",\"undoable\":true}"
    );
    assert_eq!(
        entry_to_detail_json(&entry),
        "{\"id\":3,\"timestamp\":\"2024-01-02T03:04:05Z\",\"operation\":\"say \\\"hi\\\"\\\\\\n\\r\\t\",\"undoable\":true,\"insertCount\":1,\"removeCount\":0,\"inserted\":\"<http://e/a> <http://e/p> <http://e/b> .\\n\",\"removed\":\"\"}"
    );
}

#[test]
fn changelog_error_messages() {
    assert_eq!(
        ChangelogError::Disabled.message(),
        "Changelog is not enabled (use --changelog to enable)"
    );
    assert_eq!(ChangelogError::NotFound.message(), "Changelog entry not found");
    assert_eq!(ChangelogError::NotUndoable.message(), "Changelog entry is not undoable");
    assert_eq!(
        ChangelogError::Internal("boom".to_owned()).message(),
        "Internal changelog error: boom"
    );
}

#[test]
fn committed_transactions_are_recorded() {
    let mut registry = TransactionRegistry::new(Duration::from_secs(60));
    let mut store = QuadStore::new();
    let mut changelog = Changelog::new(true, 0);
    let id = registry.begin();
    let q = quad("http://example.org/s", "http://example.org/p", "http://example.org/o");
    registry.add(&id, vec![q.clone()]).unwrap();
    let result = commit_transaction(&mut registry, &mut store, &mut changelog, &id).unwrap();
    assert_eq!(result.txn_id, id);
    assert_eq!(data_quads(&store), vec![q.clone()]);
    let entries = changelog.list(&store, 0, 10).unwrap();
    assert_eq!(entries.len(), 1);
    assert_eq!(entries[0].operation, "transaction");
    let entry = changelog.get(&store, entries[0].id).unwrap().unwrap();
    assert_eq!(entry.inserted, vec![q.clone()]);
    assert!(matches!(
        commit_transaction(&mut registry, &mut store, &mut changelog, &id),
        Err(TransactionError::NotFound)
    ));
    let mut off = Changelog::new(false, 0);
    let mut plain = QuadStore::new();
    let id2 = registry.begin();
    registry.add(&id2, vec![q.clone()]).unwrap();
    commit_transaction(&mut registry, &mut plain, &mut off, &id2).unwrap();
    assert_eq!(plain.quads().to_vec(), vec![q]);
}
