use oxigraph_cloud::cdc::{
    activity_type, channel_path, make_subscription, open_subscription, CdcConfig, ChangeEvent,
    ChannelType, Subscription,
};
use oxigraph_cloud::changelog::{ChangelogEntry, ChangelogError};
use oxigraph_cloud::server::{
    allowed_origin, changelog_error_to_http, check_declared_body_len, check_read_body_len, found_entry, store_load_ops, changelog_list_body, check_bind, check_write_auth,
    commit_body, content_type_of, count_body, metrics_path, mode_body, parse_mode_body,
    parse_pd_endpoints, query_number, route, shapes_body, split_pieces, transaction_begin_body,
    txn_error_to_http, Route,
};
use oxigraph_cloud::shacl::ShaclMode;
use oxigraph_cloud::store::{GraphName, Quad, Subject, Term};
use oxigraph_cloud::transactions::TransactionError;
use std::time::{Duration, Instant};

fn route_name(path: &str, method: &str) -> String {
    format!("{:?}", route(path, method))
}

#[test]
fn routes_of_fixed_endpoints() {
    assert!(matches!(route("/shacl/shapes", "POST"), Route::ShaclUploadShapes));
    assert!(matches!(route("/shacl/shapes", "GET"), Route::ShaclGetShapes));
    assert!(matches!(route("/shacl/shapes", "DELETE"), Route::ShaclDeleteShapes));
    assert!(matches!(route("/shacl/validate", "POST"), Route::ShaclValidate));
    assert!(matches!(route("/shacl/mode", "GET"), Route::ShaclGetMode));
    assert!(matches!(route("/shacl/mode", "PUT"), Route::ShaclSetMode));
    assert!(matches!(route("/update", "POST"), Route::Update));
    assert!(matches!(route("/store", "POST"), Route::StorePost));
    assert!(matches!(route("/store", "GET"), Route::StoreGet));
    assert!(matches!(route("/health", "GET"), Route::Health));
    assert!(matches!(route("/ready", "GET"), Route::Ready));
    assert!(matches!(route("/metrics", "GET"), Route::Metrics));
    assert!(matches!(route("/", "GET"), Route::Root));
    assert!(matches!(route("/query", "GET"), Route::QueryGet));
    assert!(matches!(route("/query", "POST"), Route::QueryPost));
    assert_eq!(route_name("/nowhere", "GET"), format!("{:?}", Route::Failure(404, "Not found: GET /nowhere".to_owned())));
    assert_eq!(route_name("/update", "GET"), format!("{:?}", Route::Failure(404, "Not found: GET /update".to_owned())));
}

#[test]
fn routes_of_transactions() {
    assert!(matches!(route("/transactions", "POST"), Route::TransactionBegin));
    assert!(matches!(route("/transactions/t1/add", "PUT"), Route::TransactionAdd(id) if id == "t1"));
    assert!(matches!(route("/transactions/t1/remove", "PUT"), Route::TransactionRemove(id) if id == "t1"));
    assert!(matches!(route("/transactions/t1/query", "POST"), Route::TransactionQuery(id) if id == "t1"));
    assert!(matches!(route("/transactions/t1/update", "POST"), Route::TransactionUpdate(id) if id == "t1"));
    assert!(matches!(route("/transactions/t1/commit", "PUT"), Route::TransactionCommit(id) if id == "t1"));
    assert!(matches!(route("/transactions/t1", "DELETE"), Route::TransactionRollback(id) if id == "t1"));
    assert!(matches!(route("/transactions/", "PUT"), Route::Failure(400, m) if m == "Missing transaction ID"));
    assert!(matches!(route("/transactions/t1/add", "POST"), Route::Failure(404, m) if m == "Not found: POST /transactions/t1/add"));
    assert!(matches!(route("/transactionsX", "DELETE"), Route::TransactionRollback(id) if id == "X"));
}

#[test]
fn routes_of_changelog() {
    assert!(matches!(route("/changelog", "GET"), Route::ChangelogList));
    assert!(matches!(route("/changelog", "DELETE"), Route::ChangelogPurge));
    assert!(matches!(route("/changelog/12", "GET"), Route::ChangelogGet(12)));
    assert!(matches!(route("/changelog/12/undo", "POST"), Route::ChangelogUndo(12)));
    assert!(matches!(route("/changelog/abc", "GET"), Route::Failure(400, m) if m == "Invalid changelog ID: abc"));
    assert!(matches!(route("/changelog/12/redo", "POST"), Route::Failure(404, m) if m == "Not found: POST /changelog/12/redo"));
}

#[test]
fn write_routes_need_the_key() {
    assert!(route("/update", "POST").writes());
    assert!(route("/changelog/3/undo", "POST").writes());
    assert!(!route("/changelog/3", "GET").writes());
    assert!(!route("/query", "GET").writes());
}

#[test]
fn write_authorization() {
    assert_eq!(check_write_auth(None, None), Ok(()));
    assert_eq!(check_write_auth(Some("Bearer secret"), Some("secret")), Ok(()));
    let refused = Err((
        401,
        "Write operations require a valid Authorization: Bearer <key> header".to_owned(),
    ));
    assert_eq!(check_write_auth(Some("Bearer wrong"), Some("secret")), refused);
    assert_eq!(check_write_auth(None, Some("secret")), refused);
    assert_eq!(check_write_auth(Some("secret"), Some("secret")), refused);
    assert_eq!(check_write_auth(Some("Bearer secret "), Some("secret")), refused);
}

#[test]
fn bind_addresses() {
    assert_eq!(check_bind("127.0.0.1:7878", false), Ok(()));
    assert_eq!(check_bind("localhost:80", false), Ok(()));
    assert_eq!(check_bind("[::1]:80", false), Ok(()));
    assert_eq!(check_bind("0.0.0.0:80", true), Ok(()));
    assert_eq!(
        check_bind("0.0.0.0:80", false),
        Err("Binding to 0.0.0.0:80 requires --write-key (or OXIGRAPH_WRITE_KEY env var) to be set.\nUse --bind 127.0.0.1:7878 for local-only access without authentication.".to_owned())
    );
}

#[test]
fn header_helpers() {
    assert_eq!(content_type_of(" Text/Turtle ; charset=utf-8"), "text/turtle");
    assert_eq!(content_type_of("application/N-Quads"), "application/n-quads");
    assert_eq!(parse_pd_endpoints("a:1, b:2 ,c:3"), vec!["a:1", "b:2", "c:3"]);
    assert_eq!(split_pieces("a,,b,", ','), vec!["a", "", "b", ""]);
    assert_eq!(allowed_origin("*", "https://x"), Some("*".to_owned()));
    assert_eq!(allowed_origin("https://a, https://x", "https://x"), Some("https://x".to_owned()));
    assert_eq!(allowed_origin("https://a", "https://x"), None);
    assert_eq!(metrics_path("/transactions/abc/add"), "/transactions/{id}");
    assert_eq!(metrics_path("/changelog/4"), "/changelog/{id}");
    assert_eq!(metrics_path("/changelog"), "/changelog");
    assert_eq!(query_number(Some("15"), 20), 15);
    assert_eq!(query_number(Some("x"), 20), 20);
    assert_eq!(query_number(None, 20), 20);
}

#[test]
fn errors_as_http_answers() {
    assert_eq!(
        txn_error_to_http(&TransactionError::NotFound),
        (404, "Transaction not found or already committed/rolled back".to_owned())
    );
    assert_eq!(txn_error_to_http(&TransactionError::Parse("p".to_owned())), (400, "p".to_owned()));
    assert_eq!(txn_error_to_http(&TransactionError::Query("q".to_owned())), (400, "q".to_owned()));
    assert_eq!(txn_error_to_http(&TransactionError::Storage("s".to_owned())), (500, "s".to_owned()));
    assert_eq!(
        changelog_error_to_http(&ChangelogError::Disabled),
        (404, "Changelog is not enabled (use --changelog to enable)".to_owned())
    );
    assert_eq!(changelog_error_to_http(&ChangelogError::NotFound), (404, "Changelog entry not found".to_owned()));
    assert_eq!(
        changelog_error_to_http(&ChangelogError::NotUndoable),
        (422, "Changelog entry is not undoable".to_owned())
    );
    assert_eq!(changelog_error_to_http(&ChangelogError::Internal("i".to_owned())), (500, "i".to_owned()));
}

#[test]
fn shacl_mode_bodies() {
    assert_eq!(parse_mode_body("{\"mode\": \"enforce\"}"), Ok(ShaclMode::Enforce));
    assert_eq!(parse_mode_body("{\"mode\":\"off\"}"), Ok(ShaclMode::Off));
    assert_eq!(parse_mode_body("{\"mode\": \"warn\"}"), Ok(ShaclMode::Warn));
    assert_eq!(
        parse_mode_body("{\"mode\": \"loud\"}"),
        Err((400, "Invalid mode: \"loud\". Must be one of: off, warn, enforce".to_owned()))
    );
    assert_eq!(
        parse_mode_body("{}"),
        Err((400, "Expected JSON body with \"mode\" field, e.g. {\"mode\": \"enforce\"}".to_owned()))
    );
    assert_eq!(mode_body(ShaclMode::Warn), "{\"mode\": \"warn\"}");
    assert_eq!(shapes_body(true, 3), "{\"loaded\": true, \"shape_count\": 3}");
    assert_eq!(shapes_body(false, 0), "{\"loaded\": false, \"shape_count\": 0}");
}

#[test]
fn answer_bodies() {
    assert_eq!(count_body("added", 4), "{\"added\":4}");
    assert_eq!(count_body("purged", 0), "{\"purged\":0}");
    assert_eq!(transaction_begin_body("t-1"), "{\"transaction_id\":\"t-1\"}");
    assert_eq!(commit_body("t-1"), "{\"committed\":true,\"transaction_id\":\"t-1\"}");
    let e = |id: u64| ChangelogEntry {
        id,
        timestamp: "t".to_owned(),
        operation: "op".to_owned(),
        inserted: vec![],
        removed: vec![],
        undoable: false,
    };
    assert_eq!(changelog_list_body(&[]), "{\"entries\":[]}");
    assert_eq!(
        changelog_list_body(&[e(2), e(1)]),
        "{\"entries\":[{\"id\":2,\"timestamp\":\"t\",\"operation\":\"op\",\"undoable\":false},{\"id\":1,\"timestamp\":\"t\",\"operation\":\"op\",\"undoable\":false}]}"
    );
}

fn config() -> CdcConfig {
    CdcConfig {
        bind_port: 9000,
        main_server_url: "http://127.0.0.1:7878".to_owned(),
        buffer_size: 1024,
        batch_window: Duration::from_millis(100),
    }
}

#[test]
fn subscriptions() {
    let now = Instant::now();
    let s: Subscription =
        make_subscription("id1".to_owned(), now, &config(), "WebSocketChannel2023", None, Some("41".to_owned()))
            .unwrap();
    assert_eq!(s.id, "id1");
    assert_eq!(s.topic, "http://127.0.0.1:7878");
    assert_eq!(s.channel_type, ChannelType::WebSocketChannel2023);
    assert_eq!(s.last_event_id, Some(41));
    assert_eq!(s.created, now);
    let t = make_subscription(
        "id2".to_owned(),
        now,
        &config(),
        "StreamingHTTPChannel2023",
        Some("http://t".to_owned()),
        Some("x".to_owned()),
    )
    .unwrap();
    assert_eq!(t.topic, "http://t");
    assert_eq!(t.last_event_id, None);
    assert_eq!(
        make_subscription("id3".to_owned(), now, &config(), "Pigeon", None, None).unwrap_err(),
        "Unsupported channel type: Pigeon"
    );
    let fresh = open_subscription(&config(), "WebSocketChannel2023", None, None).unwrap();
    assert_eq!(fresh.id.len(), 36);
    assert_eq!(fresh.id.as_bytes()[14], b'4');
    assert_ne!(fresh.id, open_subscription(&config(), "WebSocketChannel2023", None, None).unwrap().id);
    assert_eq!(ChannelType::parse("StreamingHTTPChannel2023"), Ok(ChannelType::StreamingHTTPChannel2023));
    assert_eq!(ChannelType::WebSocketChannel2023.name(), "WebSocketChannel2023");
    assert_eq!(
        channel_path(9000, ChannelType::WebSocketChannel2023, "abc"),
        "http://0.0.0.0:9000/channel/ws/abc"
    );
    assert_eq!(
        channel_path(9000, ChannelType::StreamingHTTPChannel2023, "abc"),
        "http://0.0.0.0:9000/channel/sse/abc"
    );
}

#[test]
fn activity_types() {
    let q = Quad {
        subject: Subject::NamedNode("http://e/a".to_owned()),
        predicate: "http://e/p".to_owned(),
        object: Term::NamedNode("http://e/b".to_owned()),
        graph_name: GraphName::DefaultGraph,
    };
    let ev = |ins: Vec<Quad>, rem: Vec<Quad>| ChangeEvent {
        id: 1,
        timestamp: "t".to_owned(),
        operation: "op".to_owned(),
        inserted: ins,
        removed: rem,
    };
    assert_eq!(activity_type(&ev(vec![q.clone()], vec![])), "Create");
    assert_eq!(activity_type(&ev(vec![], vec![q.clone()])), "Delete");
    assert_eq!(activity_type(&ev(vec![q.clone()], vec![q.clone()])), "Update");
    assert_eq!(activity_type(&ev(vec![], vec![])), "Update");
}

#[test]
fn store_loads_and_missing_entries() {
    let q = Quad {
        subject: Subject::NamedNode("http://ex.org/s".to_owned()),
        predicate: "http://ex.org/p".to_owned(),
        object: Term::NamedNode("http://ex.org/o".to_owned()),
        graph_name: GraphName::DefaultGraph,
    };
    assert!(store_load_ops(false, vec![q.clone()]).is_none());
    assert!(store_load_ops(true, vec![]).is_none());
    let ops = store_load_ops(true, vec![q.clone()]).unwrap();
    assert_eq!(ops.len(), 1);
    assert!(matches!(&ops[0], oxigraph_cloud::transactions::BufferedOp::InsertQuads(v) if v.len() == 1 && v[0] == q));
    let entry = ChangelogEntry {
        id: 7,
        timestamp: "t".to_owned(),
        operation: "op".to_owned(),
        inserted: vec![],
        removed: vec![],
        undoable: true,
    };
    assert_eq!(found_entry(Some(entry)).unwrap().id, 7);
    assert_eq!(found_entry(None).unwrap_err(), (404, "Changelog entry not found".to_owned()));
}

#[test]
fn bodies_past_the_limit_are_refused() {
    assert!(check_declared_body_len(10, 10).is_ok());
    assert_eq!(
        check_declared_body_len(11, 10).unwrap_err(),
        (400, "Body too large: 11 bytes (limit 10)".to_owned())
    );
    assert!(check_read_body_len(0, 0).is_ok());
    assert!(check_read_body_len(1024, 1024).is_ok());
    assert_eq!(check_read_body_len(1025, 1024).unwrap_err(), (400, "Body too large (limit 1024 bytes)".to_owned()));
}
