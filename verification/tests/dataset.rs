use oxigraph_cloud::nquads::{parse_nquads, quads_to_nquads};
use oxigraph_cloud::store::{GraphName, Literal, Quad, QuadStore, Subject, Term};
use oxigraph_cloud::text::parse_u64_str;
use oxigraph_cloud::transactions::{replay_ops, BufferedOp, TransactionError};

fn quad(s: &str, p: &str, o: Term, g: GraphName) -> Quad {
    Quad { subject: Subject::NamedNode(s.to_owned()), predicate: p.to_owned(), object: o, graph_name: g }
}

fn named(s: &str) -> Term {
    Term::NamedNode(s.to_owned())
}

#[test]
fn store_insert_remove_contains() {
    let mut store = QuadStore::new();
    let a = quad("http://e/a", "http://e/p", named("http://e/b"), GraphName::DefaultGraph);
    let b = quad("http://e/a", "http://e/p", named("http://e/c"), GraphName::DefaultGraph);
    assert!(store.insert(a.clone()));
    assert!(!store.insert(a.clone()));
    assert!(store.insert(b.clone()));
    assert_eq!(store.len(), 2);
    assert!(store.contains(&a));
    assert!(store.remove(&a));
    assert!(!store.remove(&a));
    assert!(!store.contains(&a));
    assert_eq!(store.quads().to_vec(), vec![b]);
}

#[test]
fn store_remove_graph_counts() {
    let mut store = QuadStore::new();
    let g = GraphName::NamedNode("http://e/g".to_owned());
    store.insert(quad("http://e/a", "http://e/p", named("http://e/b"), g.clone()));
    store.insert(quad("http://e/a", "http://e/p", named("http://e/c"), g.clone()));
    store.insert(quad("http://e/a", "http://e/p", named("http://e/c"), GraphName::DefaultGraph));
    assert_eq!(store.remove_graph(&"http://e/g".to_owned()), 2);
    assert_eq!(store.len(), 1);
}

#[test]
fn nquads_text_of_each_term_kind() {
    let qs = vec![
        quad("http://e/a", "http://e/p", named("http://e/b"), GraphName::DefaultGraph),
        Quad {
            subject: Subject::BlankNode("x1".to_owned()),
            predicate: "http://e/p".to_owned(),
            object: Term::Literal(Literal::Simple("a \"b\" \\ c\nd\re\tf\u{8}\u{c}\u{1}\u{7f}".to_owned())),
            graph_name: GraphName::NamedNode("http://e/g".to_owned()),
        },
        quad(
            "http://e/a",
            "http://e/p",
            Term::Literal(Literal::LanguageTagged("chat".to_owned(), "fr".to_owned())),
            GraphName::BlankNode("g".to_owned()),
        ),
        quad(
            "http://e/a",
            "http://e/p",
            Term::Literal(Literal::Typed("1".to_owned(), "http://www.w3.org/2001/XMLSchema#integer".to_owned())),
            GraphName::DefaultGraph,
        ),
        quad("http://e/a", "http://e/p", Term::BlankNode("o".to_owned()), GraphName::DefaultGraph),
    ];
    let text = quads_to_nquads(&qs);
    assert_eq!(
        text,
        "<http://e/a> <http://e/p> <http://e/b> .\n\
         _:x1 <http://e/p> \"a \\\"b\\\" \\\\ c\\nd\\re\\tf\\b\\f\\u0001\\u007F\" <http://e/g> .\n\
         <http://e/a> <http://e/p> \"chat\"@fr _:g .\n\
         <http://e/a> <http://e/p> \"1\"^^<http://www.w3.org/2001/XMLSchema#integer> .\n\
         <http://e/a> <http://e/p> _:o .\n"
    );
    assert_eq!(parse_nquads(&text), qs);
}

#[test]
fn nquads_reading_skips_bad_lines_and_decodes_escapes() {
    let text = "garbage\n<http://e/a> <http://e/p> \"\\u00e9\\u0041\" .\n\n<http://e/a> <http://e/p> <http://e/b>\n";
    let qs = parse_nquads(text);
    assert_eq!(
        qs,
        vec![quad(
            "http://e/a",
            "http://e/p",
            Term::Literal(Literal::Simple("\u{e9}A".to_owned())),
            GraphName::DefaultGraph
        )]
    );
    assert!(parse_nquads("").is_empty());
    assert!(parse_nquads("<http://e/a> <http://e/p> \"\\uD800\" .\n").is_empty());
}

#[test]
fn u64_reading_follows_std() {
    assert_eq!(parse_u64_str("0"), Some(0));
    assert_eq!(parse_u64_str("+42"), Some(42));
    assert_eq!(parse_u64_str("007"), Some(7));
    assert_eq!(parse_u64_str("18446744073709551615"), Some(u64::MAX));
    assert_eq!(parse_u64_str("18446744073709551616"), None);
    assert_eq!(parse_u64_str(""), None);
    assert_eq!(parse_u64_str("+"), None);
    assert_eq!(parse_u64_str("-0"), None);
    assert_eq!(parse_u64_str("1 "), None);
    for s in ["0", "+42", "99999999999999999999", "12a", "", "-1"] {
        assert_eq!(parse_u64_str(s), s.parse::<u64>().ok(), "{s}");
    }
}

#[test]
fn replay_stops_at_updates() {
    let mut store = QuadStore::new();
    let a = quad("http://e/a", "http://e/p", named("http://e/b"), GraphName::DefaultGraph);
    let b = quad("http://e/a", "http://e/p", named("http://e/c"), GraphName::DefaultGraph);
    let ops = vec![
        BufferedOp::InsertQuads(vec![a.clone(), b.clone()]),
        BufferedOp::RemoveQuads(vec![a.clone()]),
        BufferedOp::SparqlUpdate("CLEAR ALL".to_owned()),
        BufferedOp::InsertQuads(vec![a.clone()]),
    ];
    assert_eq!(replay_ops(&mut store, &ops, 0), 2);
    assert_eq!(store.quads().to_vec(), vec![b.clone()]);
    assert_eq!(replay_ops(&mut store, &ops, 3), 4);
    assert_eq!(store.quads().to_vec(), vec![b, a]);
    assert_eq!(replay_ops(&mut store, &ops, 4), 4);
}

#[test]
fn transaction_error_messages() {
    assert_eq!(
        TransactionError::NotFound.message(),
        "Transaction not found or already committed/rolled back"
    );
    assert_eq!(TransactionError::Parse("x".to_owned()).message(), "RDF parse error: x");
    assert_eq!(TransactionError::Storage("x".to_owned()).message(), "Storage error: x");
    assert_eq!(TransactionError::Query("x".to_owned()).message(), "Query error: x");
}
